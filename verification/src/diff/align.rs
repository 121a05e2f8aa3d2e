//! The alignment grid: a weighted acyclic graph over the lines of a replaced
//! block, relaxed in one pass and walked backwards from its exit.

use crate::diff::changeset::{
    can_tabulate, changeset, changeset_fits, changeset_of, lemma_small_table_fits,
};
use crate::diff::path::{
    after_indices, after_sides, alignment_cost, alignment_entries, alignment_path, before_indices,
    before_sides, best_dist, best_parent, ceil_even, counting, entries_over, entry_of, exit_point,
    grid_of, in_grid, is_edge, is_exit, is_grid, is_root, is_step,
    lemma_alignment_cost_within_baseline, lemma_alignment_entries_present,
    lemma_alignment_path_is_alignment, lemma_alignment_reconstructs,
    lemma_alignment_reconstructs_lines, lemma_alignment_takes_every_line,
    lemma_alignment_within_baseline, lemma_current_only_edges, lemma_dist_bounded,
    lemma_edge_bounds_dist, lemma_entries_in_lines, lemma_entries_sides, lemma_exit_point_is_exit,
    lemma_grid_of_is_grid, lemma_no_after_lines_deletes, lemma_no_before_lines_inserts,
    lemma_nothing_scanned, lemma_path_takes_lines_in_order, lemma_path_to_reaches,
    lemma_relax_current, lemma_root_dist, lemma_scan_advances, lemma_scan_wraps,
    lemma_scanned_step_is_settled, lemma_shaping_node_unreached, lemma_single_lines_pair,
    lines_taken, path_to, relaxed_so_far, total, weights_within,
};
use crate::diff::text::{byte_len, texts};
use vstd::prelude::*;
use vstd::string::StrSliceExecFns;

verus! {

/// The most lines that either side of a grid may have. With it the grid's
/// dimensions fit in 32 bits, and no distance leaves `i128`.
pub const MAX_LINES: usize = 0x7fff_ffff;

/// The largest weight, in either direction, that a node may have.
pub const WEIGHT_LIMIT: i128 = 0x4000_0000_0000_0000_0000_0000;

/// No distance in a grid of at most `MAX_LINES` lines a side, with weights
/// within `WEIGHT_LIMIT`, is further from zero than this.
pub const DISTANCE_LIMIT: i128 = 0x4000_0000_0000_0000_0000_0000_0000_0000;

/// A grid coordinate.
#[derive(Clone, Copy, Debug, PartialEq, Eq, Structural)]
pub struct Point {
    pub x: usize,
    pub y: usize,
}

/// One node of the alignment grid.
pub struct AlignmentNode {
    pub id: Point,
    pub weight: i128,
    pub relax_weight: i128,
    pub relax_parent: Point,
}

impl AlignmentNode {
    /// A node that no edge has reached yet.
    pub fn new(x: usize, y: usize, weight: i128) -> (node: AlignmentNode)
        ensures
            node.id == (Point { x, y }),
            node.weight == weight,
            node.relax_weight == i128::MAX,
            node.relax_parent == (Point { x: 0, y: 0 }),
    {
        AlignmentNode {
            id: Point { x, y },
            weight: weight,
            relax_weight: i128::MAX,
            relax_parent: Point { x: 0, y: 0 },
        }
    }

    /// Relaxes the node over the edge from a predecessor at the given
    /// distance: where that way in is strictly cheaper than the best so far,
    /// the node takes its distance and the predecessor as its parent.
    pub fn relax(&mut self, predecessor_id: &Point, predecessor_weight: i128)
        requires
            i128::MIN <= predecessor_weight + old(self).weight <= i128::MAX,
        ensures
            final(self).id == old(self).id,
            final(self).weight == old(self).weight,
            old(self).relax_weight > predecessor_weight + old(self).weight ==> {
                &&& final(self).relax_weight == predecessor_weight + old(self).weight
                &&& final(self).relax_parent == *predecessor_id
            },
            old(self).relax_weight <= predecessor_weight + old(self).weight ==> {
                &&& final(self).relax_weight == old(self).relax_weight
                &&& final(self).relax_parent == old(self).relax_parent
            },
    {
        let candidate_weight: i128 = predecessor_weight + self.weight;
        if self.relax_weight > candidate_weight {
            self.relax_weight = candidate_weight;
            self.relax_parent = *predecessor_id;
        }
    }
}


/// The costs in a vector, as integers.
pub open spec fn costs(v: Seq<i128>) -> Seq<int> {
    v.map_values(|w: i128| w as int)
}

/// The costs in a vector of rows, as integers.
pub open spec fn cost_rows(rows: Seq<Vec<i128>>) -> Seq<Seq<int>> {
    Seq::new(rows.len(), |i: int| costs(rows[i]@))
}

/// The distance and parent that a relaxed grid holds at `(x, y)`: those of
/// the cheapest path for a step, and nothing for a shaping node.
pub open spec fn settled(g: Seq<Seq<int>>, x: int, y: int) -> Option<(int, (int, int))> {
    if is_step(x, y) {
        Some((best_dist(g, x, y), best_parent(g, x, y)))
    } else {
        None
    }
}

/// The node holds the given distance and parent, or, for `None`, is as
/// `AlignmentNode::new` made it.
pub open spec fn node_holds(node: AlignmentNode, state: Option<(int, (int, int))>) -> bool {
    match state {
        None => node.relax_weight == i128::MAX && node.relax_parent == (Point { x: 0, y: 0 }),
        Some((d, p)) => node.relax_weight == d && node.relax_parent.x == p.0
            && node.relax_parent.y == p.1,
    }
}

/// The alignment grid of one replaced block.
pub struct AlignmentMatrix {
    line_matrix: Vec<Vec<AlignmentNode>>,
    line_matrix_x_len: usize,
    line_matrix_y_len: usize,
}

impl AlignmentMatrix {
    /// The number of columns: twice the number of before-lines, and one.
    pub closed spec fn x_len(&self) -> int {
        self.line_matrix_x_len as int
    }

    /// The height of each column: twice the number of after-lines, and one.
    pub closed spec fn y_len(&self) -> int {
        self.line_matrix_y_len as int
    }

    /// The node at `(x, y)`.
    pub closed spec fn node_at(&self, x: int, y: int) -> AlignmentNode {
        self.line_matrix@[x]@[y]
    }

    /// The weights of the nodes, column by column.
    pub closed spec fn weights(&self) -> Seq<Seq<int>> {
        Seq::new(
            self.line_matrix@.len(),
            |x: int|
                Seq::new(
                    self.line_matrix@[x]@.len(),
                    |y: int| self.line_matrix@[x]@[y].weight as int,
                ),
        )
    }

    /// The grid has its dimensions, every node knows its place, and every
    /// weight is within `WEIGHT_LIMIT`.
    pub closed spec fn shaped(&self) -> bool {
        &&& self.line_matrix@.len() == self.line_matrix_x_len
        &&& self.line_matrix_x_len % 2 == 1
        &&& self.line_matrix_y_len % 2 == 1
        &&& self.line_matrix_x_len <= 2 * MAX_LINES + 1
        &&& self.line_matrix_y_len <= 2 * MAX_LINES + 1
        &&& forall|x: int|
            0 <= x < self.line_matrix_x_len ==> (#[trigger] self.line_matrix@[x])@.len()
                == self.line_matrix_y_len
        &&& forall|x: int, y: int|
            0 <= x < self.line_matrix_x_len && 0 <= y < self.line_matrix_y_len ==> {
                &&& (#[trigger] self.line_matrix@[x]@[y]).id.x == x
                &&& self.line_matrix@[x]@[y].id.y == y
                &&& -WEIGHT_LIMIT <= self.line_matrix@[x]@[y].weight <= WEIGHT_LIMIT
            }
    }

    /// No edge has been relaxed yet.
    pub closed spec fn fresh(&self) -> bool {
        forall|x: int, y: int|
            0 <= x < self.line_matrix_x_len && 0 <= y < self.line_matrix_y_len ==> node_holds(
                #[trigger] self.line_matrix@[x]@[y],
                None,
            )
    }

    /// Every step holds the distance and the parent of its cheapest path.
    pub closed spec fn relaxed(&self) -> bool {
        forall|x: int, y: int|
            0 <= x < self.line_matrix_x_len && 0 <= y < self.line_matrix_y_len ==> node_holds(
                #[trigger] self.line_matrix@[x]@[y],
                settled(self.weights(), x, y),
            )
    }

    /// The grid is well formed: shaped, and either fresh or relaxed.
    pub closed spec fn wf(&self) -> bool {
        self.shaped() && (self.fresh() || self.relaxed())
    }

    /// The grid over the given costs: `unalign_b[i]` for leaving before-line
    /// `i` alone, `unalign_a[j]` for leaving after-line `j` alone, and
    /// `paired[i][j]` for pairing the two.
    pub fn from_weights(
        unalign_b: &Vec<i128>,
        unalign_a: &Vec<i128>,
        paired: &Vec<Vec<i128>>,
    ) -> (m: AlignmentMatrix)
        requires
            unalign_b.len() <= MAX_LINES,
            unalign_a.len() <= MAX_LINES,
            paired.len() == unalign_b.len(),
            forall|i: int| 0 <= i < paired.len() ==> (#[trigger] paired[i]).len() == unalign_a.len(),
            forall|i: int|
                0 <= i < unalign_b.len() ==> -WEIGHT_LIMIT <= #[trigger] unalign_b[i]
                    <= WEIGHT_LIMIT,
            forall|j: int|
                0 <= j < unalign_a.len() ==> -WEIGHT_LIMIT <= #[trigger] unalign_a[j]
                    <= WEIGHT_LIMIT,
            forall|i: int, j: int|
                0 <= i < paired.len() && 0 <= j < unalign_a.len() ==> -WEIGHT_LIMIT
                    <= #[trigger] paired[i][j] <= WEIGHT_LIMIT,
        ensures
            m.wf(),
            m.fresh(),
            m.x_len() == 2 * unalign_b.len() + 1,
            m.y_len() == 2 * unalign_a.len() + 1,
            m.weights() == grid_of(costs(unalign_b@), costs(unalign_a@), cost_rows(paired@)),
    {
        let line_matrix_x_len: usize = unalign_b.len() * 2 + 1;
        let line_matrix_y_len: usize = unalign_a.len() * 2 + 1;
        let ghost g = grid_of(costs(unalign_b@), costs(unalign_a@), cost_rows(paired@));
        let mut line_matrix: Vec<Vec<AlignmentNode>> = Vec::with_capacity(line_matrix_x_len);
        let mut x: usize = 0;
        while x < line_matrix_x_len
            invariant
                x <= line_matrix_x_len,
                line_matrix_x_len == 2 * unalign_b.len() + 1,
                line_matrix_y_len == 2 * unalign_a.len() + 1,
                paired.len() == unalign_b.len(),
                forall|i: int|
                    0 <= i < paired.len() ==> (#[trigger] paired[i]).len() == unalign_a.len(),
                forall|i: int|
                    0 <= i < unalign_b.len() ==> -WEIGHT_LIMIT <= #[trigger] unalign_b[i]
                        <= WEIGHT_LIMIT,
                forall|j: int|
                    0 <= j < unalign_a.len() ==> -WEIGHT_LIMIT <= #[trigger] unalign_a[j]
                        <= WEIGHT_LIMIT,
                forall|i: int, j: int|
                    0 <= i < paired.len() && 0 <= j < unalign_a.len() ==> -WEIGHT_LIMIT
                        <= #[trigger] paired[i][j] <= WEIGHT_LIMIT,
                g == grid_of(costs(unalign_b@), costs(unalign_a@), cost_rows(paired@)),
                line_matrix@.len() == x,
                forall|i: int| 0 <= i < x ==> (#[trigger] line_matrix@[i])@.len() == line_matrix_y_len,
                forall|i: int, j: int|
                    0 <= i < x && 0 <= j < line_matrix_y_len ==> {
                        &&& (#[trigger] line_matrix@[i]@[j]).id.x == i
                        &&& line_matrix@[i]@[j].id.y == j
                        &&& line_matrix@[i]@[j].weight == g[i][j]
                        &&& -WEIGHT_LIMIT <= line_matrix@[i]@[j].weight <= WEIGHT_LIMIT
                        &&& node_holds(line_matrix@[i]@[j], None)
                    },
            decreases line_matrix_x_len - x,
        {
            let aligned_x = x % 2 != 0;
            let mut row: Vec<AlignmentNode> = Vec::with_capacity(line_matrix_y_len);
            let mut y: usize = 0;
            while y < line_matrix_y_len
                invariant
                    x < line_matrix_x_len,
                    y <= line_matrix_y_len,
                    aligned_x == (x % 2 != 0),
                    line_matrix_x_len == 2 * unalign_b.len() + 1,
                    line_matrix_y_len == 2 * unalign_a.len() + 1,
                    paired.len() == unalign_b.len(),
                    forall|i: int|
                        0 <= i < paired.len() ==> (#[trigger] paired[i]).len() == unalign_a.len(),
                    forall|i: int|
                        0 <= i < unalign_b.len() ==> -WEIGHT_LIMIT <= #[trigger] unalign_b[i]
                            <= WEIGHT_LIMIT,
                    forall|j: int|
                        0 <= j < unalign_a.len() ==> -WEIGHT_LIMIT <= #[trigger] unalign_a[j]
                            <= WEIGHT_LIMIT,
                    forall|i: int, j: int|
                        0 <= i < paired.len() && 0 <= j < unalign_a.len() ==> -WEIGHT_LIMIT
                            <= #[trigger] paired[i][j] <= WEIGHT_LIMIT,
                    g == grid_of(costs(unalign_b@), costs(unalign_a@), cost_rows(paired@)),
                    row@.len() == y,
                    forall|j: int|
                        0 <= j < y ==> {
                            &&& (#[trigger] row@[j]).id.x == x
                            &&& row@[j].id.y == j
                            &&& row@[j].weight == g[x as int][j]
                            &&& -WEIGHT_LIMIT <= row@[j].weight <= WEIGHT_LIMIT
                            &&& node_holds(row@[j], None)
                        },
                decreases line_matrix_y_len - y,
            {
                let aligned_y = y % 2 != 0;
                let weight: i128 = match (aligned_x, aligned_y) {
                    (false, false) => -1,
                    (true, false) => unalign_b[x / 2],
                    (false, true) => unalign_a[y / 2],
                    (true, true) => paired[x / 2][y / 2],
                };
                row.push(AlignmentNode::new(x, y, weight));
                y += 1;
            }
            line_matrix.push(row);
            x += 1;
        }
        let m = AlignmentMatrix { line_matrix, line_matrix_x_len, line_matrix_y_len };
        assert(m.weights() =~~= g);
        m
    }

    /// What a well-formed grid is: its weights are those of a grid of its
    /// dimensions, which are odd and no more than `MAX_LINES` lines allow;
    /// every weight is within `WEIGHT_LIMIT`; and every node knows its
    /// place and holds its weight.
    pub proof fn lemma_grid(&self)
        requires
            self.wf(),
        ensures
            is_grid(self.weights()),
            self.weights().len() == self.x_len(),
            self.weights()[0].len() == self.y_len(),
            self.x_len() % 2 == 1,
            self.y_len() % 2 == 1,
            1 <= self.x_len() <= 2 * MAX_LINES + 1,
            1 <= self.y_len() <= 2 * MAX_LINES + 1,
            weights_within(self.weights(), WEIGHT_LIMIT as int),
            forall|x: int, y: int|
                0 <= x < self.x_len() && 0 <= y < self.y_len() ==> {
                    &&& (#[trigger] self.node_at(x, y)).id.x == x
                    &&& self.node_at(x, y).id.y == y
                    &&& self.node_at(x, y).weight == self.weights()[x][y]
                },
    {
        self.lemma_dims();
        self.lemma_weights();
    }

    /// The grid of weights has the dimensions of the matrix.
    proof fn lemma_dims(&self)
        requires
            self.shaped(),
        ensures
            self.weights().len() == self.x_len(),
            self.weights()[0].len() == self.y_len(),
            self.x_len() % 2 == 1,
            self.y_len() % 2 == 1,
            self.x_len() <= 2 * MAX_LINES + 1,
            self.y_len() <= 2 * MAX_LINES + 1,
    {
        assert(self.line_matrix@[0]@.len() == self.line_matrix_y_len);
    }

    /// What a relaxed grid holds at a step.
    proof fn lemma_relaxed_at(&self, x: int, y: int)
        requires
            self.shaped(),
            self.relaxed(),
            0 <= x < self.x_len(),
            0 <= y < self.y_len(),
        ensures
            node_holds(self.line_matrix@[x]@[y], settled(self.weights(), x, y)),
            is_step(x, y) ==> self.line_matrix@[x]@[y].relax_weight == best_dist(
                self.weights(),
                x,
                y,
            ),
            self.line_matrix@[x]@[y].relax_parent.x == best_parent(self.weights(), x, y).0,
            self.line_matrix@[x]@[y].relax_parent.y == best_parent(self.weights(), x, y).1,
    {
    }

    /// What the grid's shape says of its weights.
    proof fn lemma_weights(&self)
        requires
            self.shaped(),
        ensures
            is_grid(self.weights()),
            weights_within(self.weights(), WEIGHT_LIMIT as int),
            self.weights().len() == self.x_len(),
            self.weights()[0].len() == self.y_len(),
            forall|x: int, y: int|
                0 <= x < self.x_len() && 0 <= y < self.y_len() ==> (
                #[trigger] self.weights()[x][y]) == self.line_matrix@[x]@[y].weight,
    {
        let g = self.weights();
        assert(self.line_matrix@[0]@.len() == self.line_matrix_y_len);
        assert forall|x: int| 0 <= x < g.len() implies (#[trigger] g[x]).len() == g[0].len() by {
            assert(self.line_matrix@[x]@.len() == self.line_matrix_y_len);
        }
        assert forall|x: int, y: int| in_grid(g, x, y) implies -WEIGHT_LIMIT <= #[trigger] g[x][y]
            <= WEIGHT_LIMIT by {
            assert(self.line_matrix@[x]@.len() == self.line_matrix_y_len);
            assert(-WEIGHT_LIMIT <= self.line_matrix@[x]@[y].weight <= WEIGHT_LIMIT);
        }
        assert forall|x: int, y: int|
            0 <= x < self.x_len() && 0 <= y < self.y_len() implies (#[trigger] g[x][y])
            == self.line_matrix@[x]@[y].weight by {
            assert(self.line_matrix@[x]@.len() == self.line_matrix_y_len);
        }
    }

    /// The state of the grid when the scan has come to `(cx, cy)`. A grid
    /// that was relaxed before (`again`) stays as it was throughout.
    pub closed spec fn scanned_to(&self, again: bool, cx: int, cy: int) -> bool {
        &&& self.shaped()
        &&& again ==> self.relaxed()
        &&& !again ==> forall|x: int, y: int|
            0 <= x < self.line_matrix_x_len && 0 <= y < self.line_matrix_y_len ==> node_holds(
                #[trigger] self.line_matrix@[x]@[y],
                relaxed_so_far(self.weights(), x, y, cx, cy, false),
            )
    }

    /// Gives the roots their distance: the implicit source reaches them for
    /// free.
    fn reach_roots(&mut self)
        requires
            old(self).wf(),
        ensures
            final(self).scanned_to(!old(self).fresh(), 0, 0),
            final(self).weights() == old(self).weights(),
            final(self).x_len() == old(self).x_len(),
            final(self).y_len() == old(self).y_len(),
    {
        let ghost g = self.weights();
        let ghost again = !self.fresh();
        let ghost x_len = self.x_len();
        let ghost y_len = self.y_len();
        proof {
            self.lemma_weights();
            lemma_roots(x_len, y_len);
        }
        let topo = self.root_adjacency();
        let mut i: usize = 0;
        while i < topo.len()
            invariant
                i <= topo.len(),
                topo@ == roots(x_len, y_len),
                forall|j: int|
                    0 <= j < topo@.len() ==> is_root(
                        (#[trigger] topo@[j]).x as int,
                        topo@[j].y as int,
                    ) && topo@[j].x < x_len && topo@[j].y < y_len,
                self.shaped(),
                self.x_len() == x_len,
                self.y_len() == y_len,
                self.weights() == g,
                again ==> self.relaxed(),
                !again ==> forall|j: int|
                    0 <= j < i ==> self.line_matrix@[(#[trigger] topo@[j]).x as int]@[topo@[j].y as int].relax_weight
                        == 0,
                !again ==> forall|x: int, y: int|
                    0 <= x < x_len && 0 <= y < y_len ==> {
                        &&& (#[trigger] self.line_matrix@[x]@[y]).relax_parent == (Point {
                            x: 0,
                            y: 0,
                        })
                        &&& (self.line_matrix@[x]@[y].relax_weight == i128::MAX || (is_root(x, y)
                            && self.line_matrix@[x]@[y].relax_weight == 0))
                    },
            decreases topo.len() - i,
        {
            let adj = topo[i];
            let ghost before = self.line_matrix@;
            proof {
                assert(is_root(topo@[i as int].x as int, topo@[i as int].y as int));
                lemma_root_dist(g, adj.x as int, adj.y as int);
                assert(again ==> node_holds(
                    self.line_matrix@[adj.x as int]@[adj.y as int],
                    settled(g, adj.x as int, adj.y as int),
                ));
            }
            self.line_matrix[adj.x][adj.y].relax_weight = 0;
            proof {
                assert(self.line_matrix@.len() == before.len());
                assert forall|x: int, y: int|
                    0 <= x < x_len && 0 <= y < y_len && !(x == adj.x && y
                        == adj.y) implies #[trigger] self.line_matrix@[x]@[y] == before[x]@[y] by {}
                assert(self.weights() =~~= g);
            }
            i += 1;
        }
        proof {
            if !again {
                assert forall|x: int, y: int| 0 <= x < x_len && 0 <= y < y_len implies node_holds(
                    #[trigger] self.line_matrix@[x]@[y],
                    relaxed_so_far(g, x, y, 0, 0, false),
                ) by {
                    lemma_nothing_scanned(g, x, y);
                    if is_root(x, y) {
                        let j = choose|j: int| 0 <= j < topo@.len() && topo@[j] == point(x, y);
                        assert(topo@[j].x == x && topo@[j].y == y);
                    }
                }
            }
        }
    }

    /// Relaxes the edges that leave the step at `(x, y)`.
    fn relax_successors(&mut self, x: usize, y: usize, Ghost(again): Ghost<bool>)
        requires
            old(self).scanned_to(again, x as int, y as int),
            x < old(self).x_len(),
            y < old(self).y_len(),
            is_step(x as int, y as int),
        ensures
            final(self).scanned_to(again, x as int, y as int + 1),
            final(self).weights() == old(self).weights(),
            final(self).x_len() == old(self).x_len(),
            final(self).y_len() == old(self).y_len(),
    {
        let ghost g = self.weights();
        let ghost x_len = self.x_len();
        let ghost y_len = self.y_len();
        let vertex = &self.line_matrix[x][y];
        let vertex_id = vertex.id;
        let vertex_weight = vertex.relax_weight;
        let adjacency = self.adjacency_of(vertex);
        proof {
            self.lemma_weights();
            self.lemma_step_is_settled(again, x as int, y as int);
            lemma_successors(x_len, y_len, x as int, y as int);
        }
        let mut k: usize = 0;
        while k < adjacency.len()
            invariant
                k <= adjacency.len(),
                adjacency@ == successors(x_len, y_len, x as int, y as int),
                x < x_len,
                y < y_len,
                is_step(x as int, y as int),
                vertex_id == point(x as int, y as int),
                vertex_weight == best_dist(g, x as int, y as int),
                -DISTANCE_LIMIT + WEIGHT_LIMIT <= vertex_weight <= DISTANCE_LIMIT - WEIGHT_LIMIT,
                forall|j: int|
                    0 <= j < adjacency@.len() ==> {
                        &&& is_edge(
                            x as int,
                            y as int,
                            (#[trigger] adjacency@[j]).x as int,
                            adjacency@[j].y as int,
                        )
                        &&& adjacency@[j].x < x_len
                        &&& adjacency@[j].y < y_len
                    },
                self.shaped(),
                self.x_len() == x_len,
                self.y_len() == y_len,
                self.weights() == g,
                is_grid(g),
                weights_within(g, WEIGHT_LIMIT as int),
                g.len() == x_len,
                g[0].len() == y_len,
                again ==> self.relaxed(),
                !again ==> forall|j: int|
                    0 <= j < k ==> node_holds(
                        self.line_matrix@[(#[trigger] adjacency@[j]).x as int]@[adjacency@[j].y as int],
                        relaxed_so_far(
                            g,
                            adjacency@[j].x as int,
                            adjacency@[j].y as int,
                            x as int,
                            y as int,
                            true,
                        ),
                    ),
                !again ==> forall|x2: int, y2: int|
                    0 <= x2 < x_len && 0 <= y2 < y_len ==> {
                        ||| node_holds(
                            #[trigger] self.line_matrix@[x2]@[y2],
                            relaxed_so_far(g, x2, y2, x as int, y as int, false),
                        )
                        ||| node_holds(
                            self.line_matrix@[x2]@[y2],
                            relaxed_so_far(g, x2, y2, x as int, y as int, true),
                        )
                    },
            decreases adjacency.len() - k,
        {
            let adj = adjacency[k];
            let ghost before = self.line_matrix@;
            proof {
                assert(is_edge(
                    x as int,
                    y as int,
                    adjacency@[k as int].x as int,
                    adjacency@[k as int].y as int,
                ));
                lemma_edge_bounds_dist(g, x as int, y as int, adj.x as int, adj.y as int);
                assert(in_grid(g, adj.x as int, adj.y as int));
                assert(-WEIGHT_LIMIT <= g[adj.x as int][adj.y as int] <= WEIGHT_LIMIT);
                assert(before[adj.x as int]@[adj.y as int].weight == g[adj.x as int][adj.y as int]);
                assert(again ==> node_holds(
                    before[adj.x as int]@[adj.y as int],
                    settled(g, adj.x as int, adj.y as int),
                ));
            }
            self.line_matrix[adj.x][adj.y].relax(&vertex_id, vertex_weight);
            proof {
                assert(self.line_matrix@.len() == before.len());
                assert forall|x2: int, y2: int|
                    0 <= x2 < x_len && 0 <= y2 < y_len && !(x2 == adj.x && y2
                        == adj.y) implies #[trigger] self.line_matrix@[x2]@[y2]
                    == before[x2]@[y2] by {}
                assert(self.weights() =~~= g);
                if !again {
                    lemma_relax_node(
                        before[adj.x as int]@[adj.y as int],
                        self.line_matrix@[adj.x as int]@[adj.y as int],
                        g,
                        adj.x as int,
                        adj.y as int,
                        x as int,
                        y as int,
                    );
                }
            }
            k += 1;
        }
        proof {
            if !again {
                self.lemma_successors_relaxed(x as int, y as int);
            }
        }
    }

    /// The step that the scan has come to holds its distance, which is
    /// within `DISTANCE_LIMIT` even with one more weight added.
    proof fn lemma_step_is_settled(&self, again: bool, x: int, y: int)
        requires
            self.scanned_to(again, x, y),
            is_step(x, y),
            x < self.x_len(),
            y < self.y_len(),
        ensures
            self.line_matrix@[x]@[y].relax_weight == best_dist(self.weights(), x, y),
            -DISTANCE_LIMIT + WEIGHT_LIMIT <= best_dist(self.weights(), x, y) <= DISTANCE_LIMIT
                - WEIGHT_LIMIT,
    {
        let g = self.weights();
        self.lemma_weights();
        assert(node_holds(self.line_matrix@[x]@[y], settled(g, x, y))) by {
            lemma_scanned_step_is_settled(g, x, y, x, y);
        }
        lemma_dist_in_range(g, x, y);
    }

    /// Once every successor of the step at `(x, y)` has been relaxed from
    /// it, the grid is as the scan leaves that step.
    proof fn lemma_successors_relaxed(&self, x: int, y: int)
        requires
            self.shaped(),
            is_step(x, y),
            x < self.x_len(),
            y < self.y_len(),
            forall|j: int|
                0 <= j < successors(self.x_len(), self.y_len(), x, y).len() ==> node_holds(
                    self.line_matrix@[(#[trigger] successors(
                        self.x_len(),
                        self.y_len(),
                        x,
                        y,
                    )[j]).x as int]@[successors(self.x_len(), self.y_len(), x, y)[j].y as int],
                    relaxed_so_far(
                        self.weights(),
                        successors(self.x_len(), self.y_len(), x, y)[j].x as int,
                        successors(self.x_len(), self.y_len(), x, y)[j].y as int,
                        x,
                        y,
                        true,
                    ),
                ),
            forall|x2: int, y2: int|
                0 <= x2 < self.x_len() && 0 <= y2 < self.y_len() ==> {
                    ||| node_holds(
                        #[trigger] self.line_matrix@[x2]@[y2],
                        relaxed_so_far(self.weights(), x2, y2, x, y, false),
                    )
                    ||| node_holds(
                        self.line_matrix@[x2]@[y2],
                        relaxed_so_far(self.weights(), x2, y2, x, y, true),
                    )
                },
        ensures
            self.scanned_to(false, x, y + 1),
    {
        let g = self.weights();
        let adjacency = successors(self.x_len(), self.y_len(), x, y);
        lemma_successors(self.x_len(), self.y_len(), x, y);
        assert forall|x2: int, y2: int|
            0 <= x2 < self.x_len() && 0 <= y2 < self.y_len() implies node_holds(
            #[trigger] self.line_matrix@[x2]@[y2],
            relaxed_so_far(g, x2, y2, x, y + 1, false),
        ) by {
            lemma_scan_advances(g, x2, y2, x, y);
            if is_edge(x, y, x2, y2) {
                let j = choose|j: int| 0 <= j < adjacency.len() && adjacency[j] == point(x2, y2);
                assert(adjacency[j].x == x2 && adjacency[j].y == y2);
            } else {
                lemma_current_only_edges(g, x2, y2, x, y);
            }
        }
    }

    /// Relaxes every edge of the grid in one scan, column by column and each
    /// from the top. Every edge leads on in that order, so each step has its
    /// distance when the scan comes to it.
    pub fn shortest_path(&mut self)
        requires
            old(self).wf(),
        ensures
            final(self).wf(),
            final(self).relaxed(),
            final(self).weights() == old(self).weights(),
            final(self).x_len() == old(self).x_len(),
            final(self).y_len() == old(self).y_len(),
    {
        let ghost g = self.weights();
        let ghost again = !self.fresh();
        let ghost x_len = self.x_len();
        let ghost y_len = self.y_len();
        self.reach_roots();
        proof {
            self.lemma_weights();
        }
        let mut x: usize = 0;
        while x < self.line_matrix_x_len
            invariant
                x <= self.line_matrix_x_len,
                self.scanned_to(again, x as int, 0),
                self.x_len() == x_len,
                self.y_len() == y_len,
                self.weights() == g,
                is_grid(g),
                g.len() == x_len,
                g[0].len() == y_len,
            decreases self.line_matrix_x_len - x,
        {
            let mut y: usize = 0;
            while y < self.line_matrix_y_len
                invariant
                    x < self.line_matrix_x_len,
                    y <= self.line_matrix_y_len,
                    self.scanned_to(again, x as int, y as int),
                    self.x_len() == x_len,
                    self.y_len() == y_len,
                    self.weights() == g,
                    is_grid(g),
                    g.len() == x_len,
                    g[0].len() == y_len,
                decreases self.line_matrix_y_len - y,
            {
                if x % 2 == 1 || y % 2 == 1 {
                    self.relax_successors(x, y, Ghost(again));
                } else {
                    proof {
                        if !again {
                            assert forall|x2: int, y2: int|
                                0 <= x2 < x_len && 0 <= y2 < y_len implies node_holds(
                                #[trigger] self.line_matrix@[x2]@[y2],
                                relaxed_so_far(g, x2, y2, x as int, y as int + 1, false),
                            ) by {
                                lemma_scan_advances(g, x2, y2, x as int, y as int);
                            }
                        }
                    }
                }
                y += 1;
            }
            proof {
                if !again {
                    assert forall|x2: int, y2: int|
                        0 <= x2 < x_len && 0 <= y2 < y_len implies node_holds(
                        #[trigger] self.line_matrix@[x2]@[y2],
                        relaxed_so_far(g, x2, y2, x as int + 1, 0, false),
                    ) by {
                        lemma_scan_wraps(g, x2, y2, x as int);
                    }
                }
            }
            x += 1;
        }
        proof {
            if !again {
                assert forall|x2: int, y2: int|
                    0 <= x2 < x_len && 0 <= y2 < y_len implies node_holds(
                    #[trigger] self.line_matrix@[x2]@[y2],
                    settled(g, x2, y2),
                ) by {
                    if is_step(x2, y2) {
                        lemma_scanned_step_is_settled(g, x2, y2, x_len, 0);
                    } else {
                        lemma_shaping_node_unreached(g, x2, y2, x_len, 0, false);
                    }
                }
            }
        }
    }

    /// The exit that the alignment ends in: the cheapest of the three to
    /// reach. On a tie the paired exit comes first, then the one that leaves
    /// the last after-line alone. A grid without lines has no exit.
    pub fn exit(&self) -> (e: Option<Point>)
        requires
            self.wf(),
            self.relaxed(),
        ensures
            match e {
                None => exit_point(self.weights()) is None,
                Some(p) => exit_point(self.weights()) == Some((p.x as int, p.y as int)) && p.x
                    < self.x_len() && p.y < self.y_len(),
            },
    {
        let width: usize = self.line_matrix_x_len;
        let height: usize = self.line_matrix_y_len;
        proof {
            self.lemma_dims();
        }
        if width < 3 && height < 3 {
            None
        } else if width < 3 {
            Some(Point { x: width - 1, y: height - 2 })
        } else if height < 3 {
            Some(Point { x: width - 2, y: height - 1 })
        } else {
            let both: i128 = self.line_matrix[width - 2][height - 2].relax_weight;
            let before_only: i128 = self.line_matrix[width - 2][height - 1].relax_weight;
            let after_only: i128 = self.line_matrix[width - 1][height - 2].relax_weight;
            proof {
                self.lemma_relaxed_at(width - 2, height - 2);
                self.lemma_relaxed_at(width - 2, height - 1);
                self.lemma_relaxed_at(width - 1, height - 2);
            }
            if before_only < after_only && before_only < both {
                Some(Point { x: width - 2, y: height - 1 })
            } else if after_only < both {
                Some(Point { x: width - 1, y: height - 2 })
            } else {
                Some(Point { x: width - 2, y: height - 2 })
            }
        }
    }

    /// The nodes from `exit` back to the first step, along the parents: the
    /// path to `exit`, last node first. The first node handed back is `exit`
    /// itself, the others are nodes of the grid.
    pub fn walk_path<'a>(&'a self, exit: &'a AlignmentNode) -> (path: Vec<&'a AlignmentNode>)
        requires
            self.wf(),
            self.relaxed(),
            exit.id.x < self.x_len(),
            exit.id.y < self.y_len(),
        ensures
            path@.len() == path_to(self.weights(), exit.id.x as int, exit.id.y as int).len(),
            forall|k: int|
                0 <= k < path@.len() ==> ((#[trigger] path@[k]).id.x as int, path@[k].id.y as int)
                    == path_to(self.weights(), exit.id.x as int, exit.id.y as int)[path@.len() - 1
                    - k],
            forall|k: int|
                1 <= k < path@.len() ==> *(#[trigger] path@[k]) == self.node_at(
                    path@[k].id.x as int,
                    path@[k].id.y as int,
                ),
            path@.len() > 0 ==> path@[0] == exit,
            walked(path@) == path_to(self.weights(), exit.id.x as int, exit.id.y as int),
            is_step(exit.id.x as int, exit.id.y as int) ==> forall|k: int|
                0 <= k < path@.len() ==> is_step(
                    (#[trigger] path@[k]).id.x as int,
                    path@[k].id.y as int,
                ),
            is_exit(self.weights(), exit.id.x as int, exit.id.y as int) ==> {
                &&& before_indices(walked(path@)) == counting((self.x_len() - 1) / 2)
                &&& after_indices(walked(path@)) == counting((self.y_len() - 1) / 2)
                &&& before_indices(walked(path@)).len() == (self.x_len() - 1) / 2
                &&& after_indices(walked(path@)).len() == (self.y_len() - 1) / 2
            },
    {
        let ghost g = self.weights();
        let ghost whole = path_to(g, exit.id.x as int, exit.id.y as int);
        let mut path: Vec<&'a AlignmentNode> = Vec::with_capacity(
            self.line_matrix_x_len / 2 + self.line_matrix_y_len / 2,
        );
        let mut pos = exit;
        while pos.id.x > 0 || pos.id.y > 0
            invariant
                self.shaped(),
                self.relaxed(),
                self.weights() == g,
                pos.id.x < self.line_matrix_x_len,
                pos.id.y < self.line_matrix_y_len,
                whole == path_to(g, exit.id.x as int, exit.id.y as int),
                path@.len() + path_to(g, pos.id.x as int, pos.id.y as int).len() == whole.len(),
                path_to(g, pos.id.x as int, pos.id.y as int) == whole.take(
                    whole.len() - path@.len(),
                ),
                forall|k: int|
                    0 <= k < path@.len() ==> ((#[trigger] path@[k]).id.x as int, path@[k].id.y as int)
                        == whole[whole.len() - 1 - k],
                forall|k: int|
                    1 <= k < path@.len() ==> *(#[trigger] path@[k]) == self.line_matrix@[path@[k].id.x as int]@[path@[k].id.y as int],
                path@.len() > 0 ==> path@[0] == exit,
                path@.len() == 0 ==> pos == exit,
                path@.len() > 0 ==> *pos == self.line_matrix@[pos.id.x as int]@[pos.id.y as int],
            decreases pos.id.x + pos.id.y,
        {
            let ghost here = path_to(g, pos.id.x as int, pos.id.y as int);
            path.push(pos);
            let next = &self.line_matrix[pos.id.x][pos.id.y].relax_parent;
            proof {
                let x = pos.id.x as int;
                let y = pos.id.y as int;
                assert(node_holds(self.line_matrix@[x]@[y], settled(g, x, y)));
                let parent = best_parent(g, x, y);
                assert(next.x == parent.0 && next.y == parent.1);
                assert(here == path_to(g, parent.0, parent.1).push((x, y)));
                assert(path_to(g, parent.0, parent.1) =~= whole.take(whole.len() - path@.len()));
                assert(whole[whole.len() - path@.len()] == here.last());
            }
            pos = &self.line_matrix[next.x][next.y];
        }
        proof {
            assert(path_to(g, 0, 0) =~= Seq::<(int, int)>::empty());
            assert(walked(path@) =~= whole);
            self.lemma_dims();
            self.lemma_weights();
            if is_step(exit.id.x as int, exit.id.y as int) {
                lemma_path_to_reaches(g, exit.id.x as int, exit.id.y as int);
                assert forall|k: int| 0 <= k < path@.len() implies is_step(
                    (#[trigger] path@[k]).id.x as int,
                    path@[k].id.y as int,
                ) by {
                    let at = whole[path@.len() - 1 - k];
                    assert(is_step(at.0, at.1));
                }
            }
            if is_exit(g, exit.id.x as int, exit.id.y as int) {
                lemma_path_to_reaches(g, exit.id.x as int, exit.id.y as int);
                lemma_path_takes_lines_in_order(g, whole);
            }
        }
        path
    }

    /// The alignment that the grid yields, first entry first: for each step
    /// from the first to the exit, the index of the before-line that it takes
    /// and that of the after-line.
    pub fn alignment(&self) -> (entries: Vec<(Option<usize>, Option<usize>)>)
        requires
            self.wf(),
            self.relaxed(),
        ensures
            entries@ == alignment_entries(self.weights()),
            before_sides(entries@) == Seq::new(
                ((self.x_len() - 1) / 2) as nat,
                |i: int| i as usize,
            ),
            after_sides(entries@) == Seq::new(
                ((self.y_len() - 1) / 2) as nat,
                |j: int| j as usize,
            ),
            before_sides(entries@).len() == (self.x_len() - 1) / 2,
            after_sides(entries@).len() == (self.y_len() - 1) / 2,
            forall|k: int|
                0 <= k < entries@.len() ==> (#[trigger] entries@[k]).0 is Some || entries@[k].1 is Some,
    {
        let ghost g = self.weights();
        proof {
            self.lemma_dims();
            self.lemma_weights();
            let p = alignment_path(g);
            lemma_alignment_path_is_alignment(g);
            lemma_alignment_takes_every_line(g, p);
            lemma_entries_sides(p);
            lemma_alignment_entries_present(g);
            assert(before_indices(p).map_values(|i: int| i as usize) =~= Seq::new(
                ((self.x_len() - 1) / 2) as nat,
                |i: int| i as usize,
            ));
            assert(after_indices(p).map_values(|i: int| i as usize) =~= Seq::new(
                ((self.y_len() - 1) / 2) as nat,
                |j: int| j as usize,
            ));
        }
        let mut entries: Vec<(Option<usize>, Option<usize>)> = Vec::new();
        match self.exit() {
            None => {
                assert(entries@ =~= alignment_entries(g));
            },
            Some(e) => {
                let ghost whole = path_to(g, e.x as int, e.y as int);
                let path = self.walk_path(&self.line_matrix[e.x][e.y]);
                let mut k: usize = path.len();
                while k > 0
                    invariant
                        k <= path@.len(),
                        path@.len() == whole.len(),
                        entries@.len() == path@.len() - k,
                        forall|i: int|
                            0 <= i < path@.len() ==> ((#[trigger] path@[i]).id.x as int, path@[i].id.y as int)
                                == whole[path@.len() - 1 - i],
                        forall|i: int|
                            0 <= i < entries@.len() ==> #[trigger] entries@[i] == entry_of(
                                whole[i].0,
                                whole[i].1,
                            ),
                    decreases k,
                {
                    k -= 1;
                    let id = path[k].id;
                    let before: Option<usize> = if id.x % 2 == 1 {
                        Some((id.x - 1) / 2)
                    } else {
                        None
                    };
                    let after: Option<usize> = if id.y % 2 == 1 {
                        Some((id.y - 1) / 2)
                    } else {
                        None
                    };
                    entries.push((before, after));
                }
                assert(entries@ =~= alignment_entries(g));
            },
        }
        entries
    }

    /// The baseline bound: in a relaxed grid over costs of which none for
    /// leaving a line alone is less than nothing, the exit that `exit`
    /// chooses holds a distance of at most what it costs to leave every line
    /// alone. The paired costs may be any integers.
    pub proof fn lemma_exit_within_baseline(
        &self,
        e: Point,
        unalign_b: Seq<int>,
        unalign_a: Seq<int>,
        paired: Seq<Seq<int>>,
    )
        requires
            self.wf(),
            self.relaxed(),
            self.weights() == grid_of(unalign_b, unalign_a, paired),
            exit_point(self.weights()) == Some((e.x as int, e.y as int)),
            forall|i: int| 0 <= i < unalign_b.len() ==> unalign_b[i] >= 0,
            forall|j: int| 0 <= j < unalign_a.len() ==> unalign_a[j] >= 0,
        ensures
            self.node_at(e.x as int, e.y as int).relax_weight <= total(unalign_b) + total(
                unalign_a,
            ),
    {
        let g = self.weights();
        self.lemma_dims();
        self.lemma_weights();
        lemma_exit_point_is_exit(g);
        lemma_path_to_reaches(g, e.x as int, e.y as int);
        lemma_alignment_within_baseline(unalign_b, unalign_a, paired);
        self.lemma_relaxed_at(e.x as int, e.y as int);
    }

    /// The grid over two blocks of lines, unless the blocks cannot be
    /// aligned; see `new` and `lines_fit`.
    pub fn try_new(lines_b: &Vec<&str>, lines_a: &Vec<&str>) -> (m: Option<AlignmentMatrix>)
        ensures
            match m {
                None => !lines_fit(texts(lines_b@), texts(lines_a@)),
                Some(matrix) => {
                    &&& lines_fit(texts(lines_b@), texts(lines_a@))
                    &&& matrix.wf()
                    &&& matrix.fresh()
                    &&& matrix.x_len() == 2 * lines_b.len() + 1
                    &&& matrix.y_len() == 2 * lines_a.len() + 1
                    &&& matrix.weights() == line_grid(texts(lines_b@), texts(lines_a@))
                },
            },
    {
        if lines_can_align(lines_b, lines_a) {
            Some(AlignmentMatrix::new(lines_b, lines_a))
        } else {
            None
        }
    }

    /// The grid over two blocks of lines. A line costs its length in bytes to
    /// leave alone; a pair costs `pair_cost` of the edit script between its
    /// two lines.
    pub fn new(lines_b: &Vec<&str>, lines_a: &Vec<&str>) -> (m: AlignmentMatrix)
        requires
            lines_fit(texts(lines_b@), texts(lines_a@)),
        ensures
            m.wf(),
            m.fresh(),
            m.x_len() == 2 * lines_b.len() + 1,
            m.y_len() == 2 * lines_a.len() + 1,
            m.weights() == line_grid(texts(lines_b@), texts(lines_a@)),
    {
        let lines_b_len: usize = lines_b.len();
        let lines_a_len: usize = lines_a.len();
        // The cost of leaving each line alone: the alignment must do no
        // worse than that.
        let unalign_b_weights = line_weights(lines_b);
        let unalign_a_weights = line_weights(lines_a);
        // The cost of pairing each before-line with each after-line.
        let mut paired: Vec<Vec<i128>> = Vec::with_capacity(lines_b_len);
        let mut i: usize = 0;
        while i < lines_b_len
            invariant
                i <= lines_b_len,
                lines_b_len == lines_b.len(),
                lines_a_len == lines_a.len(),
                lines_fit(texts(lines_b@), texts(lines_a@)),
                paired@.len() == i,
                forall|k: int| 0 <= k < i ==> (#[trigger] paired@[k])@.len() == lines_a_len,
                forall|k: int, j: int|
                    0 <= k < i && 0 <= j < lines_a_len ==> {
                        &&& (#[trigger] paired@[k]@[j]) == line_pair_cost(lines_b@[k]@, lines_a@[j]@)
                        &&& -WEIGHT_LIMIT <= paired@[k]@[j] <= WEIGHT_LIMIT
                    },
            decreases lines_b_len - i,
        {
            let line_b = lines_b[i];
            let mut row: Vec<i128> = Vec::with_capacity(lines_a_len);
            let mut j: usize = 0;
            while j < lines_a_len
                invariant
                    i < lines_b_len,
                    j <= lines_a_len,
                    lines_b_len == lines_b.len(),
                    lines_a_len == lines_a.len(),
                    lines_fit(texts(lines_b@), texts(lines_a@)),
                    line_b == lines_b@[i as int],
                    row@.len() == j,
                    forall|k: int|
                        0 <= k < j ==> {
                            &&& (#[trigger] row@[k]) == line_pair_cost(line_b@, lines_a@[k]@)
                            &&& -WEIGHT_LIMIT <= row@[k] <= WEIGHT_LIMIT
                        },
                decreases lines_a_len - j,
            {
                let line_a = lines_a[j];
                proof {
                    reveal_strlit("");
                    assert(""@ =~= Seq::<char>::empty());
                    assert(texts(lines_b@)[i as int] == lines_b@[i as int]@);
                    assert(texts(lines_a@)[j as int] == lines_a@[j as int]@);
                    assert(changeset_fits(lines_b@[i as int]@, lines_a@[j as int]@, Seq::empty()));
                }
                let (edit_dist, diffs) = changeset(line_b, line_a, "");
                row.push(pair_weight(edit_dist, diffs.len()));
                j += 1;
            }
            paired.push(row);
            i += 1;
        }
        let m = AlignmentMatrix::from_weights(&unalign_b_weights, &unalign_a_weights, &paired);
        proof {
            assert(costs(unalign_b_weights@) =~= line_costs(texts(lines_b@)));
            assert(costs(unalign_a_weights@) =~= line_costs(texts(lines_a@)));
            assert(cost_rows(paired@) =~~= pair_costs(texts(lines_b@), texts(lines_a@)));
        }
        m
    }

    /// The number of columns of the grid.
    pub fn width(&self) -> (width: usize)
        requires
            self.wf(),
        ensures
            width == self.x_len(),
    {
        self.line_matrix_x_len
    }

    /// The height of the columns of the grid.
    pub fn height(&self) -> (height: usize)
        requires
            self.wf(),
        ensures
            height == self.y_len(),
    {
        self.line_matrix_y_len
    }

    /// The node at `(x, y)`.
    pub fn node(&self, x: usize, y: usize) -> (node: &AlignmentNode)
        requires
            self.wf(),
            x < self.x_len(),
            y < self.y_len(),
        ensures
            *node == self.node_at(x as int, y as int),
            node.id == (Point { x, y }),
            node.weight == self.weights()[x as int][y as int],
            self.fresh() ==> node_holds(*node, None),
            self.relaxed() ==> node_holds(*node, settled(self.weights(), x as int, y as int)),
    {
        &self.line_matrix[x][y]
    }

    /// The steps that the implicit source leads to, as far as the grid has
    /// them.
    pub fn root_adjacency(&self) -> (adjacency: Vec<Point>)
        requires
            self.wf(),
        ensures
            adjacency@ == roots(self.x_len(), self.y_len()),
    {
        let mut adjacency: Vec<Point> = Vec::with_capacity(3);
        if 1 < self.line_matrix_y_len {
            adjacency.push(Point { x: 0, y: 1 });
        }
        if 1 < self.line_matrix_x_len {
            adjacency.push(Point { x: 1, y: 0 });
        }
        if 1 < self.line_matrix_x_len && 1 < self.line_matrix_y_len {
            adjacency.push(Point { x: 1, y: 1 });
        }
        assert(adjacency@ =~= roots(self.x_len(), self.y_len()));
        adjacency
    }

    /// The steps that may follow `node`: one line on from where it has got
    /// to, on the before-side, on the after-side, or on both.
    pub fn adjacency(&self, node: &AlignmentNode) -> (adjacency: Vec<Point>)
        requires
            self.wf(),
            node.id.x < self.x_len(),
            node.id.y < self.y_len(),
        ensures
            adjacency@ == successors(self.x_len(), self.y_len(), node.id.x as int, node.id.y as int),
    {
        self.adjacency_of(node)
    }

    fn adjacency_of(&self, node: &AlignmentNode) -> (adjacency: Vec<Point>)
        requires
            self.shaped(),
            node.id.x < self.x_len(),
            node.id.y < self.y_len(),
        ensures
            adjacency@ == successors(self.x_len(), self.y_len(), node.id.x as int, node.id.y as int),
    {
        let mut adjacency: Vec<Point> = Vec::with_capacity(3);
        let next_x: usize = node.id.x + (node.id.x % 2);
        let next_y: usize = node.id.y + (node.id.y % 2);
        let next_x_aligned: usize = next_x + 1;
        let next_y_aligned: usize = next_y + 1;
        if next_x_aligned < self.line_matrix_x_len {
            adjacency.push(Point { x: next_x_aligned, y: next_y });
        }
        if next_y_aligned < self.line_matrix_y_len {
            adjacency.push(Point { x: next_x, y: next_y_aligned });
        }
        if next_x_aligned < self.line_matrix_x_len && next_y_aligned < self.line_matrix_y_len {
            adjacency.push(Point { x: next_x_aligned, y: next_y_aligned });
        }
        assert(adjacency@ =~= successors(
            self.x_len(),
            self.y_len(),
            node.id.x as int,
            node.id.y as int,
        ));
        adjacency
    }
}

/// Half of `n`, rounded up.
pub open spec fn half_rounded_up(n: int) -> int {
    (n + 1) / 2
}

/// What it costs to pair two lines whose edit script has the given distance
/// and number of operations: the distance, times half of one more than the
/// number of operations, the half rounded up. Many scattered edits cost more
/// than one long one.
pub open spec fn pair_cost(distance: int, operations: int) -> int {
    distance * half_rounded_up(operations + 1)
}

/// The weight of pairing two lines, from the distance and the number of
/// operations of their edit script.
pub fn pair_weight(distance: i32, operations: usize) -> (weight: i128)
    ensures
        weight == pair_cost(distance as int, operations as int),
        -WEIGHT_LIMIT <= weight <= WEIGHT_LIMIT,
{
    let factor: i128 = (operations / 2 + 1) as i128;
    let edit_dist: i128 = distance as i128;
    assert(-WEIGHT_LIMIT <= edit_dist * factor <= WEIGHT_LIMIT) by (nonlinear_arith)
        requires
            -0x8000_0000 <= edit_dist <= 0x8000_0000,
            1 <= factor <= 0x8000_0000_0000_0000,
            WEIGHT_LIMIT == 0x4000_0000_0000_0000_0000_0000,
    ;
    edit_dist * factor
}

/// What it costs to pair two lines: `pair_cost` of the edit script between
/// them, taken character by character.
pub open spec fn line_pair_cost(line_b: Seq<char>, line_a: Seq<char>) -> int {
    let script = changeset_of(line_b, line_a, Seq::empty());
    pair_cost(script.0, script.1.len() as int)
}

/// What each line costs to leave alone: its length in bytes.
pub open spec fn line_costs(lines: Seq<Seq<char>>) -> Seq<int> {
    Seq::new(lines.len(), |i: int| byte_len(lines[i]))
}

/// What each before-line costs to pair with each after-line.
pub open spec fn pair_costs(lines_b: Seq<Seq<char>>, lines_a: Seq<Seq<char>>) -> Seq<Seq<int>> {
    Seq::new(
        lines_b.len(),
        |i: int| Seq::new(lines_a.len(), |j: int| line_pair_cost(lines_b[i], lines_a[j])),
    )
}

/// The weights of the grid over two blocks of lines.
pub open spec fn line_grid(lines_b: Seq<Seq<char>>, lines_a: Seq<Seq<char>>) -> Seq<Seq<int>> {
    grid_of(line_costs(lines_b), line_costs(lines_a), pair_costs(lines_b, lines_a))
}

/// The edit script between any before-line and any after-line can be
/// computed, and neither block has more than `MAX_LINES` lines.
pub open spec fn lines_fit(lines_b: Seq<Seq<char>>, lines_a: Seq<Seq<char>>) -> bool {
    &&& lines_b.len() <= MAX_LINES
    &&& lines_a.len() <= MAX_LINES
    &&& forall|i: int, j: int|
        0 <= i < lines_b.len() && 0 <= j < lines_a.len() ==> changeset_fits(
            #[trigger] lines_b[i],
            #[trigger] lines_a[j],
            Seq::empty(),
        )
}

/// What each line costs to leave alone.
fn line_weights(lines: &Vec<&str>) -> (weights: Vec<i128>)
    ensures
        weights@.len() == lines@.len(),
        costs(weights@) == line_costs(texts(lines@)),
        forall|i: int| 0 <= i < weights@.len() ==> 0 <= #[trigger] weights@[i] <= WEIGHT_LIMIT,
{
    let mut weights: Vec<i128> = Vec::with_capacity(lines.len());
    let mut i: usize = 0;
    while i < lines.len()
        invariant
            i <= lines.len(),
            weights@.len() == i,
            forall|k: int|
                0 <= k < i ==> (#[trigger] weights@[k]) == lines@[k].len() && 0 <= weights@[k]
                    <= WEIGHT_LIMIT,
        decreases lines.len() - i,
    {
        weights.push(lines[i].len() as i128);
        i += 1;
    }
    assert(costs(weights@) =~= line_costs(texts(lines@)));
    weights
}

/// What an entry over lines costs: the pairing of its two lines, or the
/// length in bytes of its one line.
pub open spec fn line_entry_cost(entry: (Option<&str>, Option<&str>)) -> int {
    match entry {
        (Some(b), Some(a)) => line_pair_cost(b@, a@),
        (Some(b), None) => b.len() as int,
        (None, Some(a)) => a.len() as int,
        (None, None) => -1,
    }
}

/// The cost of an alignment over lines: what every entry after the first
/// costs.
pub open spec fn line_alignment_cost(entries: Seq<(Option<&str>, Option<&str>)>) -> int
    decreases entries.len(),
{
    if entries.len() <= 1 {
        0
    } else {
        line_alignment_cost(entries.drop_last()) + line_entry_cost(entries.last())
    }
}

/// The cost of entries over lines is the cost of the entries in the grid
/// over those lines.
pub proof fn lemma_line_alignment_cost(
    lines_b: Seq<&str>,
    lines_a: Seq<&str>,
    entries: Seq<(Option<usize>, Option<usize>)>,
)
    requires
        forall|k: int|
            0 <= k < entries.len() ==> match #[trigger] entries[k] {
                (Some(i), Some(j)) => i < lines_b.len() && j < lines_a.len(),
                (Some(i), None) => i < lines_b.len(),
                (None, Some(j)) => j < lines_a.len(),
                (None, None) => true,
            },
    ensures
        line_alignment_cost(entries_over(lines_b, lines_a, entries)) == alignment_cost(
            line_costs(texts(lines_b)),
            line_costs(texts(lines_a)),
            pair_costs(texts(lines_b), texts(lines_a)),
            entries,
        ),
    decreases entries.len(),
{
    let over = entries_over(lines_b, lines_a, entries);
    if entries.len() > 1 {
        lemma_line_alignment_cost(lines_b, lines_a, entries.drop_last());
        assert(over.drop_last() =~= entries_over(lines_b, lines_a, entries.drop_last()));
        let k = entries.len() - 1;
        assert(over.last() == over[k]);
        assert(entries.last() == entries[k]);
    }
}

/// Aligns the lines of a replaced block: pairs each before-line with the
/// after-line that it turned into, or leaves it alone, so that the whole
/// costs as little as can be. The entries come in order; each holds a
/// before-line, an after-line, or one of each.
pub fn align<'a>(lines_b: &Vec<&'a str>, lines_a: &Vec<&'a str>) -> (alignment: Vec<
    (Option<&'a str>, Option<&'a str>),
>)
    requires
        lines_fit(texts(lines_b@), texts(lines_a@)),
    ensures
        alignment@ == aligned(lines_b@, lines_a@),
        before_sides(alignment@) == lines_b@,
        after_sides(alignment@) == lines_a@,
        before_sides(alignment@).len() == lines_b@.len(),
        after_sides(alignment@).len() == lines_a@.len(),
        forall|k: int|
            0 <= k < alignment@.len() ==> (#[trigger] alignment@[k]).0 is Some
                || alignment@[k].1 is Some,
        line_alignment_cost(alignment@) <= total(line_costs(texts(lines_b@))) + total(
            line_costs(texts(lines_a@)),
        ),
        lines_b@.len() == 0 ==> alignment@ == Seq::new(
            lines_a@.len(),
            |j: int| (None::<&str>, Some(lines_a@[j])),
        ),
        lines_a@.len() == 0 ==> alignment@ == Seq::new(
            lines_b@.len(),
            |i: int| (Some(lines_b@[i]), None::<&str>),
        ),
        lines_b@.len() == 1 && lines_a@.len() == 1 ==> alignment@ == seq![
            (Some(lines_b@[0]), Some(lines_a@[0])),
        ],
{
    let mut matrix = AlignmentMatrix::new(lines_b, lines_a);
    matrix.shortest_path();
    let entries = matrix.alignment();
    let ghost unalign_b = line_costs(texts(lines_b@));
    let ghost unalign_a = line_costs(texts(lines_a@));
    let ghost paired = pair_costs(texts(lines_b@), texts(lines_a@));
    proof {
        lemma_grid_of_is_grid(unalign_b, unalign_a, paired);
        lemma_alignment_reconstructs(unalign_b, unalign_a, paired);
        lemma_alignment_entries_present(line_grid(texts(lines_b@), texts(lines_a@)));
        lemma_alignment_cost_within_baseline(unalign_b, unalign_a, paired);
        lemma_alignment_reconstructs_lines(lines_b@, lines_a@, unalign_b, unalign_a, paired);
        lemma_entries_in_lines(unalign_b, unalign_a, paired);
        lemma_line_alignment_cost(lines_b@, lines_a@, entries@);
        if lines_b@.len() == 0 {
            assert(unalign_b =~= Seq::<int>::empty());
            lemma_no_before_lines_inserts(unalign_a, paired);
            assert(entries_over(lines_b@, lines_a@, entries@) =~= Seq::new(
                lines_a@.len(),
                |j: int| (None::<&str>, Some(lines_a@[j])),
            ));
        }
        if lines_a@.len() == 0 {
            assert(unalign_a =~= Seq::<int>::empty());
            lemma_no_after_lines_deletes(unalign_b, paired);
            assert(entries_over(lines_b@, lines_a@, entries@) =~= Seq::new(
                lines_b@.len(),
                |i: int| (Some(lines_b@[i]), None::<&str>),
            ));
        }
        if lines_b@.len() == 1 && lines_a@.len() == 1 {
            lemma_single_lines_pair(unalign_b, unalign_a, paired);
            assert(entries_over(lines_b@, lines_a@, entries@) =~= seq![
                (Some(lines_b@[0]), Some(lines_a@[0])),
            ]);
        }
    }
    let mut alignment: Vec<(Option<&'a str>, Option<&'a str>)> = Vec::with_capacity(entries.len());
    let mut k: usize = 0;
    while k < entries.len()
        invariant
            k <= entries.len(),
            alignment@.len() == k,
            forall|n: int|
                0 <= n < entries@.len() ==> match #[trigger] entries@[n] {
                    (Some(i), Some(j)) => i < lines_b@.len() && j < lines_a@.len(),
                    (Some(i), None) => i < lines_b@.len(),
                    (None, Some(j)) => j < lines_a@.len(),
                    (None, None) => true,
                },
            forall|n: int|
                0 <= n < k ==> #[trigger] alignment@[n] == entries_over(
                    lines_b@,
                    lines_a@,
                    entries@,
                )[n],
        decreases entries.len() - k,
    {
        let before: Option<&'a str> = match entries[k].0 {
            Some(i) => Some(lines_b[i]),
            None => None,
        };
        let after: Option<&'a str> = match entries[k].1 {
            Some(j) => Some(lines_a[j]),
            None => None,
        };
        alignment.push((before, after));
        k += 1;
    }
    assert(alignment@ =~= entries_over(lines_b@, lines_a@, entries@));
    alignment
}

/// The alignment of two blocks of lines: for each entry of the alignment
/// that the grid over the lines yields, the lines that it stands for.
pub open spec fn aligned<'a>(lines_b: Seq<&'a str>, lines_a: Seq<&'a str>) -> Seq<
    (Option<&'a str>, Option<&'a str>),
> {
    entries_over(lines_b, lines_a, alignment_entries(line_grid(texts(lines_b), texts(lines_a))))
}

/// Blocks of no more than `MAX_LINES` lines, each of no more than `0x3fff`
/// characters, can be aligned on any machine.
pub proof fn lemma_short_lines_fit(lines_b: Seq<Seq<char>>, lines_a: Seq<Seq<char>>)
    requires
        lines_b.len() <= MAX_LINES,
        lines_a.len() <= MAX_LINES,
        forall|i: int| 0 <= i < lines_b.len() ==> (#[trigger] lines_b[i]).len() <= 0x3fff,
        forall|j: int| 0 <= j < lines_a.len() ==> (#[trigger] lines_a[j]).len() <= 0x3fff,
    ensures
        lines_fit(lines_b, lines_a),
{
    assert forall|i: int, j: int|
        0 <= i < lines_b.len() && 0 <= j < lines_a.len() implies changeset_fits(
        #[trigger] lines_b[i],
        #[trigger] lines_a[j],
        Seq::empty(),
    ) by {
        let l = lines_b[i].len();
        let r = lines_a[j].len();
        assert(l * r <= 0x0fff_ffff) by (nonlinear_arith)
            requires
                l <= 0x3fff,
                r <= 0x3fff,
        ;
        lemma_small_table_fits(l, r);
    }
}

/// The length of each line, in characters.
fn char_counts(lines: &Vec<&str>) -> (counts: Vec<usize>)
    ensures
        counts@.len() == lines@.len(),
        forall|i: int| 0 <= i < counts@.len() ==> (#[trigger] counts@[i]) == lines@[i]@.len(),
{
    let mut counts: Vec<usize> = Vec::with_capacity(lines.len());
    let mut i: usize = 0;
    while i < lines.len()
        invariant
            i <= lines.len(),
            counts@.len() == i,
            forall|k: int| 0 <= k < i ==> (#[trigger] counts@[k]) == lines@[k]@.len(),
        decreases lines.len() - i,
    {
        counts.push(lines[i].unicode_len());
        i += 1;
    }
    counts
}

/// Whether the two blocks of lines can be aligned: neither has more than
/// `MAX_LINES` lines, and the edit script between any before-line and any
/// after-line can be computed.
pub fn lines_can_align(lines_b: &Vec<&str>, lines_a: &Vec<&str>) -> (fits: bool)
    ensures
        fits == lines_fit(texts(lines_b@), texts(lines_a@)),
{
    if lines_b.len() > MAX_LINES || lines_a.len() > MAX_LINES {
        return false;
    }
    let ghost tb = texts(lines_b@);
    let ghost ta = texts(lines_a@);
    let chars_b = char_counts(lines_b);
    let chars_a = char_counts(lines_a);
    let mut i: usize = 0;
    while i < chars_b.len()
        invariant
            i <= chars_b.len(),
            tb == texts(lines_b@),
            ta == texts(lines_a@),
            chars_b@.len() == lines_b@.len(),
            chars_a@.len() == lines_a@.len(),
            forall|k: int| 0 <= k < chars_b@.len() ==> (#[trigger] chars_b@[k]) == tb[k].len(),
            forall|k: int| 0 <= k < chars_a@.len() ==> (#[trigger] chars_a@[k]) == ta[k].len(),
            forall|n: int, m: int|
                0 <= n < i && 0 <= m < ta.len() ==> changeset_fits(
                    #[trigger] tb[n],
                    #[trigger] ta[m],
                    Seq::empty(),
                ),
        decreases chars_b.len() - i,
    {
        let mut j: usize = 0;
        while j < chars_a.len()
            invariant
                i < chars_b.len(),
                j <= chars_a.len(),
                tb == texts(lines_b@),
                ta == texts(lines_a@),
                chars_b@.len() == lines_b@.len(),
                chars_a@.len() == lines_a@.len(),
                forall|k: int| 0 <= k < chars_b@.len() ==> (#[trigger] chars_b@[k]) == tb[k].len(),
                forall|k: int| 0 <= k < chars_a@.len() ==> (#[trigger] chars_a@[k]) == ta[k].len(),
                forall|m: int|
                    0 <= m < j ==> changeset_fits(tb[i as int], #[trigger] ta[m], Seq::empty()),
            decreases chars_a.len() - j,
        {
            if !can_tabulate(chars_b[i], chars_a[j]) {
                proof {
                    assert(!changeset_fits(tb[i as int], ta[j as int], Seq::empty()));
                }
                return false;
            }
            j += 1;
        }
        i += 1;
    }
    true
}

/// Aligns the lines of a replaced block, unless the blocks cannot be
/// aligned; see `align` and `lines_fit`.
pub fn try_align<'a>(lines_b: &Vec<&'a str>, lines_a: &Vec<&'a str>) -> (alignment: Option<
    Vec<(Option<&'a str>, Option<&'a str>)>,
>)
    ensures
        match alignment {
            None => !lines_fit(texts(lines_b@), texts(lines_a@)),
            Some(entries) => {
                &&& lines_fit(texts(lines_b@), texts(lines_a@))
                &&& entries@ == aligned(lines_b@, lines_a@)
                &&& before_sides(entries@) == lines_b@
                &&& after_sides(entries@) == lines_a@
                &&& forall|k: int|
                    0 <= k < entries@.len() ==> (#[trigger] entries@[k]).0 is Some
                        || entries@[k].1 is Some
                &&& line_alignment_cost(entries@) <= total(line_costs(texts(lines_b@))) + total(
                    line_costs(texts(lines_a@)),
                )
                &&& lines_b@.len() == 0 ==> entries@ == Seq::new(
                    lines_a@.len(),
                    |j: int| (None::<&str>, Some(lines_a@[j])),
                )
                &&& lines_a@.len() == 0 ==> entries@ == Seq::new(
                    lines_b@.len(),
                    |i: int| (Some(lines_b@[i]), None::<&str>),
                )
                &&& lines_b@.len() == 1 && lines_a@.len() == 1 ==> entries@ == seq![
                    (Some(lines_b@[0]), Some(lines_a@[0])),
                ]
            },
        },
{
    if lines_can_align(lines_b, lines_a) {
        Some(align(lines_b, lines_a))
    } else {
        None
    }
}

/// Aligns two blocks of lines by what the lines cost: `unalign_b[i]` to
/// leave before-line `i` alone, `unalign_a[j]` to leave after-line `j` alone
/// and `paired[i][j]` to pair the two. Hands back the alignment as indices
/// into the two blocks.
pub fn align_weights(unalign_b: &Vec<i128>, unalign_a: &Vec<i128>, paired: &Vec<Vec<i128>>) -> (entries:
    Vec<(Option<usize>, Option<usize>)>)
    requires
        unalign_b.len() <= MAX_LINES,
        unalign_a.len() <= MAX_LINES,
        paired.len() == unalign_b.len(),
        forall|i: int| 0 <= i < paired.len() ==> (#[trigger] paired[i]).len() == unalign_a.len(),
        forall|i: int|
            0 <= i < unalign_b.len() ==> -WEIGHT_LIMIT <= #[trigger] unalign_b[i] <= WEIGHT_LIMIT,
        forall|j: int|
            0 <= j < unalign_a.len() ==> -WEIGHT_LIMIT <= #[trigger] unalign_a[j] <= WEIGHT_LIMIT,
        forall|i: int, j: int|
            0 <= i < paired.len() && 0 <= j < unalign_a.len() ==> -WEIGHT_LIMIT
                <= #[trigger] paired[i][j] <= WEIGHT_LIMIT,
    ensures
        entries@ == alignment_entries(
            grid_of(costs(unalign_b@), costs(unalign_a@), cost_rows(paired@)),
        ),
        before_sides(entries@) == Seq::new(unalign_b@.len(), |i: int| i as usize),
        after_sides(entries@) == Seq::new(unalign_a@.len(), |j: int| j as usize),
        before_sides(entries@).len() == unalign_b@.len(),
        after_sides(entries@).len() == unalign_a@.len(),
        forall|k: int|
            0 <= k < entries@.len() ==> (#[trigger] entries@[k]).0 is Some || entries@[k].1 is Some,
        (forall|i: int| 0 <= i < unalign_b@.len() ==> unalign_b@[i] >= 0) && (forall|j: int|
            0 <= j < unalign_a@.len() ==> unalign_a@[j] >= 0) ==> alignment_cost(
            costs(unalign_b@),
            costs(unalign_a@),
            cost_rows(paired@),
            entries@,
        ) <= total(costs(unalign_b@)) + total(costs(unalign_a@)),
        unalign_b@.len() == 0 ==> entries@ == Seq::new(
            unalign_a@.len(),
            |j: int| (None::<usize>, Some(j as usize)),
        ),
        unalign_a@.len() == 0 ==> entries@ == Seq::new(
            unalign_b@.len(),
            |i: int| (Some(i as usize), None::<usize>),
        ),
        unalign_b@.len() == 1 && unalign_a@.len() == 1 && unalign_b@[0] >= 0 && unalign_a@[0] >= 0
            ==> entries@ == seq![(Some(0usize), Some(0usize))],
{
    let mut matrix = AlignmentMatrix::from_weights(unalign_b, unalign_a, paired);
    matrix.shortest_path();
    proof {
        let ub = costs(unalign_b@);
        let ua = costs(unalign_a@);
        let pw = cost_rows(paired@);
        lemma_grid_of_is_grid(ub, ua, pw);
        lemma_alignment_reconstructs(ub, ua, pw);
        lemma_alignment_entries_present(grid_of(ub, ua, pw));
        if (forall|i: int| 0 <= i < unalign_b@.len() ==> unalign_b@[i] >= 0) && (forall|j: int|
            0 <= j < unalign_a@.len() ==> unalign_a@[j] >= 0) {
            assert forall|i: int| 0 <= i < ub.len() implies ub[i] >= 0 by {
                assert(unalign_b@[i] >= 0);
            }
            assert forall|j: int| 0 <= j < ua.len() implies ua[j] >= 0 by {
                assert(unalign_a@[j] >= 0);
            }
            lemma_alignment_cost_within_baseline(ub, ua, pw);
        }
        if unalign_b@.len() == 0 {
            assert(ub =~= Seq::<int>::empty());
            lemma_no_before_lines_inserts(ua, pw);
        }
        if unalign_a@.len() == 0 {
            assert(ua =~= Seq::<int>::empty());
            lemma_no_after_lines_deletes(ub, pw);
        }
        if unalign_b@.len() == 1 && unalign_a@.len() == 1 && unalign_b@[0] >= 0 && unalign_a@[0]
            >= 0 {
            lemma_single_lines_pair(ub, ua, pw);
        }
    }
    matrix.alignment()
}

/// The places of the nodes that were walked, first step first: a walk goes
/// back from the exit, so this is the walk turned round.
pub open spec fn walked(path: Seq<&AlignmentNode>) -> Seq<(int, int)> {
    Seq::new(
        path.len(),
        |k: int| (path[path.len() - 1 - k].id.x as int, path[path.len() - 1 - k].id.y as int),
    )
}

/// The point at `(x, y)`.
pub open spec fn point(x: int, y: int) -> Point {
    Point { x: x as usize, y: y as usize }
}

/// The roots of a grid of the given dimensions.
pub open spec fn roots(x_len: int, y_len: int) -> Seq<Point> {
    let r0 = Seq::<Point>::empty();
    let r1 = if 1 < y_len {
        r0.push(point(0, 1))
    } else {
        r0
    };
    let r2 = if 1 < x_len {
        r1.push(point(1, 0))
    } else {
        r1
    };
    if 1 < x_len && 1 < y_len {
        r2.push(point(1, 1))
    } else {
        r2
    }
}

/// The nodes that an edge from `(x, y)` leads to, in a grid of the given
/// dimensions.
pub open spec fn successors(x_len: int, y_len: int, x: int, y: int) -> Seq<Point> {
    let nx = ceil_even(x);
    let ny = ceil_even(y);
    let s0 = Seq::<Point>::empty();
    let s1 = if nx + 1 < x_len {
        s0.push(point(nx + 1, ny))
    } else {
        s0
    };
    let s2 = if ny + 1 < y_len {
        s1.push(point(nx, ny + 1))
    } else {
        s1
    };
    if nx + 1 < x_len && ny + 1 < y_len {
        s2.push(point(nx + 1, ny + 1))
    } else {
        s2
    }
}

/// In a grid of at most `MAX_LINES` lines a side, with weights within
/// `WEIGHT_LIMIT`, the distance of a step is within `DISTANCE_LIMIT`, even
/// with one more weight added.
pub proof fn lemma_dist_in_range(g: Seq<Seq<int>>, x: int, y: int)
    requires
        is_grid(g),
        weights_within(g, WEIGHT_LIMIT as int),
        g.len() <= 2 * MAX_LINES + 1,
        g[0].len() <= 2 * MAX_LINES + 1,
        is_step(x, y),
        in_grid(g, x, y),
    ensures
        -DISTANCE_LIMIT + WEIGHT_LIMIT <= best_dist(g, x, y) <= DISTANCE_LIMIT - WEIGHT_LIMIT,
{
    lemma_dist_bounded(g, WEIGHT_LIMIT as int, x, y);
    let n = lines_taken(x, y);
    assert(1 <= n <= 2 * MAX_LINES) by {
        assert(x <= 2 * MAX_LINES && y <= 2 * MAX_LINES);
        assert(ceil_even(x) <= 2 * MAX_LINES && ceil_even(y) <= 2 * MAX_LINES);
    }
    let limit = WEIGHT_LIMIT as int;
    let bound = (n - 1) * limit;
    assert(bound + limit <= 0x4000_0000_0000_0000_0000_0000_0000_0000) by (nonlinear_arith)
        requires
            1 <= n <= 0xffff_fffe,
            limit == 0x4000_0000_0000_0000_0000_0000,
            bound == (n - 1) * limit,
    ;
}

/// Every root of a grid is among `roots`, and every point of `roots` is a
/// root of the grid.
pub proof fn lemma_roots(x_len: int, y_len: int)
    requires
        1 <= x_len <= usize::MAX,
        1 <= y_len <= usize::MAX,
    ensures
        forall|j: int|
            0 <= j < roots(x_len, y_len).len() ==> {
                &&& is_root(
                    (#[trigger] roots(x_len, y_len)[j]).x as int,
                    roots(x_len, y_len)[j].y as int,
                )
                &&& roots(x_len, y_len)[j].x < x_len
                &&& roots(x_len, y_len)[j].y < y_len
            },
        forall|x: int, y: int|
            0 <= x < x_len && 0 <= y < y_len && #[trigger] is_root(x, y) ==> exists|j: int|
                0 <= j < roots(x_len, y_len).len() && roots(x_len, y_len)[j] == point(x, y),
{
    let r = roots(x_len, y_len);
    assert forall|j: int| 0 <= j < r.len() implies {
        &&& is_root((#[trigger] r[j]).x as int, r[j].y as int)
        &&& r[j].x < x_len
        &&& r[j].y < y_len
    } by {
        if j == 0 {
        } else if j == 1 {
        } else {
            assert(j == 2);
        }
    }
    assert forall|x: int, y: int|
        0 <= x < x_len && 0 <= y < y_len && #[trigger] is_root(x, y) implies exists|j: int|
        0 <= j < r.len() && r[j] == point(x, y) by {
        if x == 0 && y == 1 {
            assert(r[0] == point(x, y));
        } else if x == 1 && y == 0 {
            if 1 < y_len {
                assert(r[1] == point(x, y));
            } else {
                assert(r[0] == point(x, y));
            }
        } else {
            assert(x == 1 && y == 1);
            assert(r[2] == point(x, y));
        }
    }
}

/// Relaxing a node over the edge from the step under the scan brings it to
/// the state that takes that edge in, whether or not it was relaxed over
/// that edge before.
pub proof fn lemma_relax_node(
    before: AlignmentNode,
    after: AlignmentNode,
    g: Seq<Seq<int>>,
    x: int,
    y: int,
    cx: int,
    cy: int,
)
    requires
        is_edge(cx, cy, x, y),
        0 <= cx <= usize::MAX,
        0 <= cy <= usize::MAX,
        before.weight == g[x][y],
        best_dist(g, cx, cy) + g[x][y] < i128::MAX,
        node_holds(before, relaxed_so_far(g, x, y, cx, cy, false)) || node_holds(
            before,
            relaxed_so_far(g, x, y, cx, cy, true),
        ),
        before.relax_weight > best_dist(g, cx, cy) + g[x][y] ==> after.relax_weight == best_dist(
            g,
            cx,
            cy,
        ) + g[x][y] && after.relax_parent == point(cx, cy),
        before.relax_weight <= best_dist(g, cx, cy) + g[x][y] ==> after.relax_weight
            == before.relax_weight && after.relax_parent == before.relax_parent,
    ensures
        node_holds(after, relaxed_so_far(g, x, y, cx, cy, true)),
{
    lemma_relax_current(g, x, y, cx, cy);
}

/// Every successor of a step is reached from it over an edge and lies in
/// the grid, and every step of the grid that an edge from it leads to is
/// among its successors.
pub proof fn lemma_successors(x_len: int, y_len: int, cx: int, cy: int)
    requires
        is_step(cx, cy),
        cx < x_len <= usize::MAX,
        cy < y_len <= usize::MAX,
        x_len % 2 == 1,
        y_len % 2 == 1,
    ensures
        forall|j: int|
            0 <= j < successors(x_len, y_len, cx, cy).len() ==> {
                &&& is_edge(
                    cx,
                    cy,
                    (#[trigger] successors(x_len, y_len, cx, cy)[j]).x as int,
                    successors(x_len, y_len, cx, cy)[j].y as int,
                )
                &&& successors(x_len, y_len, cx, cy)[j].x < x_len
                &&& successors(x_len, y_len, cx, cy)[j].y < y_len
            },
        forall|x: int, y: int|
            0 <= x < x_len && 0 <= y < y_len && #[trigger] is_edge(cx, cy, x, y) ==> exists|j: int|
                0 <= j < successors(x_len, y_len, cx, cy).len() && successors(
                    x_len,
                    y_len,
                    cx,
                    cy,
                )[j] == point(x, y),
{
    let s = successors(x_len, y_len, cx, cy);
    let nx = ceil_even(cx);
    let ny = ceil_even(cy);
    assert(nx % 2 == 0 && ny % 2 == 0);
    assert(cx <= nx <= cx + 1 && cy <= ny <= cy + 1);
    assert forall|j: int| 0 <= j < s.len() implies {
        &&& is_edge(cx, cy, (#[trigger] s[j]).x as int, s[j].y as int)
        &&& s[j].x < x_len
        &&& s[j].y < y_len
    } by {
        let a = point(nx + 1, ny);
        let b = point(nx, ny + 1);
        let c = point(nx + 1, ny + 1);
        assert(is_edge(cx, cy, nx + 1, ny));
        assert(is_edge(cx, cy, nx, ny + 1));
        assert(is_edge(cx, cy, nx + 1, ny + 1));
        assert(s[j] == a || s[j] == b || s[j] == c);
        if s[j] == a {
            assert(nx + 1 < x_len);
        } else if s[j] == b {
            assert(ny + 1 < y_len);
        } else {
            assert(nx + 1 < x_len && ny + 1 < y_len);
        }
    }
    assert forall|x: int, y: int|
        0 <= x < x_len && 0 <= y < y_len && #[trigger] is_edge(cx, cy, x, y) implies exists|j: int|
        0 <= j < s.len() && s[j] == point(x, y) by {
        if x == nx + 1 && y == ny {
            assert(s[0] == point(x, y));
        } else if x == nx && y == ny + 1 {
            if nx + 1 < x_len {
                assert(s[1] == point(x, y));
            } else {
                assert(s[0] == point(x, y));
            }
        } else {
            assert(x == nx + 1 && y == ny + 1);
            assert(s[2] == point(x, y));
        }
    }
}

} // verus!
