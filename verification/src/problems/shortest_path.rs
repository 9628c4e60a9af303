//! Shortest paths in a directed graph with costs on its edges.
use crate::problem::{
    admissible, closed_space, closed_under_edges, consistent, depth_suffices, is_solution,
    lemma_consistent_is_admissible, lemma_scores_fit_walks, lemma_simple_walk_within,
    lemma_unit_cost_is_length, scores_fit, simple_walk, solution_cost, solvable, state_laws,
    unit_costs, walk_cost, walk_end, walk_ok, walks_fit, well_formed, Problem,
};
use crate::random::Source;
use crate::utils::heuristics::{distance, gap};
use crate::utils::text::{decimal, push_number};
use std::collections::HashMap;
use vstd::arithmetic::div_mod::lemma_fundamental_div_mod_converse;
use vstd::prelude::*;
use vstd::string::StringExecFns;

verus! {

/// A directed graph over numbered vertices, with a start, a goal and a
/// table of estimates. A vertex without an entry has no edges, and one
/// without an estimate has the estimate 0.
#[derive(Clone)]
pub struct ShortestPath {
    graph: HashMap<usize, Vec<(usize, usize)>>,
    start: usize,
    goal: usize,
    heuristic_values: HashMap<usize, usize>,
    seed: Option<u64>,
}

/// The edges out of `cell` in a grid of `width` by `height` cells numbered
/// row by row: to the right, down, to the left and up, as far as the grid
/// goes, each at cost 1.
pub open spec fn grid_edges(width: int, height: int, cell: int) -> Seq<(usize, usize)> {
    if 0 <= cell < width * height && width > 0 {
        let row = cell / width;
        let col = cell % width;
        let right = if col < width - 1 {
            seq![((cell + 1) as usize, 1usize)]
        } else {
            seq![]
        };
        let down = if row < height - 1 {
            seq![((cell + width) as usize, 1usize)]
        } else {
            seq![]
        };
        let left = if col > 0 {
            seq![((cell - 1) as usize, 1usize)]
        } else {
            seq![]
        };
        let up = if row > 0 {
            seq![((cell - width) as usize, 1usize)]
        } else {
            seq![]
        };
        right + down + left + up
    } else {
        seq![]
    }
}

/// The Manhattan distance from `cell` to the last cell of a grid of `width`
/// by `height` cells.
pub open spec fn grid_estimate(width: int, height: int, cell: int) -> int {
    if 0 <= cell < width * height && width > 0 {
        gap(cell / width, (width * height - 1) / width) + gap(
            cell % width,
            (width * height - 1) % width,
        )
    } else {
        0
    }
}

impl ShortestPath {
    /// The vertex at which a search begins.
    pub closed spec fn start_node(&self) -> usize {
        self.start
    }

    /// The vertex to be reached.
    pub closed spec fn goal_node(&self) -> usize {
        self.goal
    }

    /// The seed from which the graph was drawn, if it was drawn from one.
    pub closed spec fn seed_of(&self) -> Option<u64> {
        self.seed
    }

    /// The edges out of `node`, in the order in which they were added:
    /// target and cost.
    pub closed spec fn out_edges(&self, node: usize) -> Seq<(usize, usize)> {
        if self.graph@.contains_key(node) {
            self.graph@[node]@
        } else {
            Seq::empty()
        }
    }

    /// The estimate set for `node`, or 0.
    pub closed spec fn estimate_of(&self, node: usize) -> usize {
        if self.heuristic_values@.contains_key(node) {
            self.heuristic_values@[node]
        } else {
            0
        }
    }

    /// The number of vertices that have an entry in the graph.
    pub closed spec fn sources(&self) -> nat {
        self.graph@.len()
    }

    /// The vertex at which a search begins.
    pub fn start_vertex(&self) -> (r: usize)
        ensures
            r == self.start_node(),
    {
        self.start
    }

    /// The vertex to be reached.
    pub fn goal_vertex(&self) -> (r: usize)
        ensures
            r == self.goal_node(),
    {
        self.goal
    }

    /// The seed from which the graph was drawn, if it was drawn from one.
    pub fn seed(&self) -> (r: Option<u64>)
        ensures
            r == self.seed_of(),
    {
        self.seed
    }

    /// A graph without edges or estimates.
    pub fn new(start: usize, goal: usize) -> (r: Self)
        ensures
            r.start_node() == start,
            r.goal_node() == goal,
            r.seed_of() is None,
            r.sources() == 0,
            forall|node: usize| r.out_edges(node) == Seq::<(usize, usize)>::empty(),
            forall|node: usize| r.estimate_of(node) == 0,
    {
        ShortestPath {
            graph: HashMap::new(),
            start,
            goal,
            heuristic_values: HashMap::new(),
            seed: None,
        }
    }

    /// Adds an edge from `from` to `to` at `cost`, after the edges that
    /// `from` has already.
    pub fn add_edge(&mut self, from: usize, to: usize, cost: usize)
        ensures
            final(self).out_edges(from) == old(self).out_edges(from).push((to, cost)),
            forall|node: usize|
                node != from ==> final(self).out_edges(node) == old(self).out_edges(node),
            forall|node: usize| final(self).estimate_of(node) == old(self).estimate_of(node),
            final(self).start_node() == old(self).start_node(),
            final(self).goal_node() == old(self).goal_node(),
            final(self).seed_of() == old(self).seed_of(),
    {
        let mut list = match self.graph.remove(&from) {
            Some(list) => list,
            None => Vec::new(),
        };
        list.push((to, cost));
        self.graph.insert(from, list);
    }

    /// Records the seed from which the graph is drawn.
    fn set_seed(&mut self, seed: Option<u64>)
        ensures
            final(self).seed_of() == seed,
            forall|node: usize| final(self).out_edges(node) == old(self).out_edges(node),
            forall|node: usize| final(self).estimate_of(node) == old(self).estimate_of(node),
            final(self).start_node() == old(self).start_node(),
            final(self).goal_node() == old(self).goal_node(),
    {
        self.seed = seed;
    }

    /// Sets the estimate for `node`.
    pub fn set_heuristic(&mut self, node: usize, value: usize)
        ensures
            final(self).estimate_of(node) == value,
            forall|other: usize|
                other != node ==> final(self).estimate_of(other) == old(self).estimate_of(other),
            forall|other: usize| final(self).out_edges(other) == old(self).out_edges(other),
            final(self).start_node() == old(self).start_node(),
            final(self).goal_node() == old(self).goal_node(),
            final(self).seed_of() == old(self).seed_of(),
    {
        self.heuristic_values.insert(node, value);
    }
}

/// The text that names the seed of a drawn graph.
pub open spec fn seed_text(seed: u64) -> Seq<char> {
    "Seed: "@ + decimal(seed as nat)
}

/// The text that names the start and the goal of a graph.
pub open spec fn route_text(start: usize, goal: usize) -> Seq<char> {
    "Start: "@ + decimal(start as nat) + " -> Goal: "@ + decimal(goal as nat)
}

/// The text that describes a graph with `sources` vertices that have edges.
pub open spec fn graph_text(sources: nat, start: usize, goal: usize) -> Seq<char> {
    "Plus court chemin: "@ + decimal(sources) + " nœuds, de "@ + decimal(start as nat) + " à "@
        + decimal(goal as nat)
}

impl ShortestPath {
    /// How the instance came about, for a report: its seed where it was
    /// drawn from one, else its start and goal.
    pub fn initial_state_string(&self) -> (r: String)
        ensures
            r@ == match self.seed_of() {
                Some(seed) => seed_text(seed),
                None => route_text(self.start_node(), self.goal_node()),
            },
    {
        match self.seed {
            Some(seed) => {
                let mut out = String::from_str("Seed: ");
                push_number(&mut out, seed as u128, 0);
                out
            },
            None => {
                let mut out = String::from_str("Start: ");
                push_number(&mut out, self.start as u128, 0);
                out.append(" -> Goal: ");
                push_number(&mut out, self.goal as u128, 0);
                out
            },
        }
    }

    /// The grid of `width` by `height` cells, numbered row by row, with an
    /// edge of cost 1 between neighbours in each direction. The search
    /// starts in the first cell and is to reach the last; the estimate of a
    /// cell is its Manhattan distance to the last.
    pub fn generate_grid(width: usize, height: usize) -> (r: Self)
        requires
            1 <= width * height <= usize::MAX,
        ensures
            r.is_grid(width, height),
            r.seed_of() is None,
    {
        let goal: usize = width * height - 1;
        let mut graph = ShortestPath::new(0, goal);
        let ghost w = width as int;
        let ghost h = height as int;
        assert(width > 0 && height > 0) by (nonlinear_arith)
            requires
                1 <= width * height,
        ;
        let goal_row: usize = goal / width;
        let goal_col: usize = goal % width;
        proof {
            assert(goal == (height - 1) * width + (width - 1)) by (nonlinear_arith)
                requires
                    goal == width * height - 1,
                    height > 0,
            ;
            lemma_fundamental_div_mod_converse(goal as int, w, height - 1, width - 1);
            assert(width + height - 1 <= width * height) by (nonlinear_arith)
                requires
                    width > 0,
                    height > 0,
            ;
        }
        let mut row: usize = 0;
        while row < height
            invariant
                w == width as int,
                h == height as int,
                width > 0,
                height > 0,
                1 <= width * height <= usize::MAX,
                goal == width * height - 1,
                goal_row == goal / width,
                goal_col == goal % width,
                goal_row == height - 1,
                goal_col == width - 1,
                width + height - 1 <= usize::MAX,
                row <= height,
                graph.start_node() == 0,
                graph.goal_node() == goal,
                graph.seed_of() is None,
                forall|cell: usize|
                    graph.out_edges(cell) == if cell < row * width {
                        grid_edges(w, h, cell as int)
                    } else {
                        Seq::empty()
                    },
                forall|cell: usize|
                    graph.estimate_of(cell) == if cell < row * width {
                        grid_estimate(w, h, cell as int)
                    } else {
                        0
                    },
            decreases height - row,
        {
            assert(row * width + width <= width * height) by (nonlinear_arith)
                requires
                    row < height,
                    width > 0,
            ;
            let base: usize = row * width;
            let mut col: usize = 0;
            while col < width
                invariant
                    w == width as int,
                    h == height as int,
                    width > 0,
                    height > 0,
                    1 <= width * height <= usize::MAX,
                    goal == width * height - 1,
                    goal_row == goal / width,
                    goal_col == goal % width,
                    goal_row == height - 1,
                    goal_col == width - 1,
                    width + height - 1 <= usize::MAX,
                    row < height,
                    col <= width,
                    base == row * width,
                    base + width <= width * height,
                    graph.start_node() == 0,
                    graph.goal_node() == goal,
                    graph.seed_of() is None,
                    forall|cell: usize|
                        graph.out_edges(cell) == if cell < base + col {
                            grid_edges(w, h, cell as int)
                        } else {
                            Seq::empty()
                        },
                    forall|cell: usize|
                        graph.estimate_of(cell) == if cell < base + col {
                            grid_estimate(w, h, cell as int)
                        } else {
                            0
                        },
                decreases width - col,
            {
                let current: usize = base + col;
                proof {
                    lemma_fundamental_div_mod_converse(current as int, w, row as int, col as int);
                }
                if col < width - 1 {
                    graph.add_edge(current, current + 1, 1);
                }
                if row < height - 1 {
                    assert(current + width < width * height) by (nonlinear_arith)
                        requires
                            current == row * width + col,
                            col < width,
                            row < height - 1,
                    ;
                    graph.add_edge(current, current + width, 1);
                }
                if col > 0 {
                    graph.add_edge(current, current - 1, 1);
                }
                if row > 0 {
                    assert(current >= width) by (nonlinear_arith)
                        requires
                            current == row * width + col,
                            row > 0,
                    ;
                    graph.add_edge(current, current - width, 1);
                }
                let estimate: usize = distance(row, goal_row) + distance(col, goal_col);
                graph.set_heuristic(current, estimate);
                proof {
                    assert(graph.out_edges(current) =~= grid_edges(w, h, current as int));
                }
                col = col + 1;
            }
            proof {
                assert((row + 1) * width == base + width) by (nonlinear_arith)
                    requires
                        base == row * width,
                ;
            }
            row = row + 1;
        }
        proof {
            assert(height * width == width * height) by (nonlinear_arith);
            assert forall|cell: usize|
                graph.out_edges(cell) == grid_edges(w, h, cell as int) by {}
        }
        graph
    }
}

impl ShortestPath {
    /// The number of edges out of the vertices below `below`.
    pub open spec fn edge_count(&self, below: nat) -> nat
        decreases below,
    {
        if below == 0 {
            0
        } else {
            self.edge_count((below - 1) as nat) + self.out_edges((below - 1) as usize).len()
        }
    }

    /// One more edge out of a vertex raises the count of the edges below a
    /// bound by one where the vertex lies below it, and else leaves it.
    proof fn lemma_edge_counted(before: &Self, after: &Self, from: usize, below: nat)
        requires
            below <= usize::MAX + 1,
            after.out_edges(from).len() == before.out_edges(from).len() + 1,
            forall|node: usize| node != from ==> after.out_edges(node) == before.out_edges(node),
        ensures
            after.edge_count(below) == before.edge_count(below) + if from < below {
                1nat
            } else {
                0nat
            },
        decreases below,
    {
        if below > 0 {
            Self::lemma_edge_counted(before, after, from, (below - 1) as nat);
            let last = (below - 1) as usize;
            if last != from {
                assert(after.out_edges(last) == before.out_edges(last));
            }
        }
    }

    /// Graphs with the same edges have as many.
    proof fn lemma_same_edges_counted(before: &Self, after: &Self, below: nat)
        requires
            forall|node: usize| after.out_edges(node) == before.out_edges(node),
        ensures
            after.edge_count(below) == before.edge_count(below),
        decreases below,
    {
        if below > 0 {
            Self::lemma_same_edges_counted(before, after, (below - 1) as nat);
            let last = (below - 1) as usize;
            assert(after.out_edges(last) == before.out_edges(last));
        }
    }

    /// A graph without edges has none to count.
    proof fn lemma_no_edges_counted(&self, below: nat)
        requires
            forall|node: usize| self.out_edges(node).len() == 0,
        ensures
            self.edge_count(below) == 0,
        decreases below,
    {
        if below > 0 {
            self.lemma_no_edges_counted((below - 1) as nat);
        }
    }

    /// A graph drawn at random, without a seed: see
    /// `generate_random_with_seed`.
    pub fn generate_random(nodes: usize, edges: usize, start: usize, goal: usize) -> (r: Self)
        requires
            edges > 0 ==> nodes > 0,
        ensures
            r.start_node() == start,
            r.goal_node() == goal,
            r.seed_of() is None,
            r.drawn_within(nodes),
            r.edge_count(nodes as nat) <= edges,
    {
        Self::generate_random_with_seed(nodes, edges, start, goal, None)
    }

    /// Only vertices below `nodes` have edges, and every edge leads to a
    /// different vertex below `nodes` at a cost from 1 to 9; every estimate is below 20, and 0 at the goal and at
    /// vertices from `nodes` on.
    pub open spec fn drawn_within(&self, nodes: usize) -> bool {
        &&& forall|node: usize| node >= nodes ==> (#[trigger] self.out_edges(node)).len() == 0
        &&& forall|node: usize, i: int|
            0 <= i < self.out_edges(node).len() ==> {
                &&& (#[trigger] self.out_edges(node)[i]).0 < nodes
                &&& self.out_edges(node)[i].0 != node
                &&& 1 <= self.out_edges(node)[i].1 < 10
            }
        &&& forall|node: usize| #[trigger] self.estimate_of(node) < 20
        &&& self.estimate_of(self.goal_node()) == 0
        &&& forall|node: usize| node >= nodes ==> #[trigger] self.estimate_of(node) == 0
    }

    /// A graph drawn at random: `edges` times two vertices below `nodes`
    /// and a cost from 1 to 9 are drawn, and the edge is added unless it
    /// would join a vertex to itself; then each vertex below `nodes` but
    /// the goal gets an estimate below 20. The numbers come from the
    /// generator that `seed` fixes, or from that of the current thread.
    pub fn generate_random_with_seed(
        nodes: usize,
        edges: usize,
        start: usize,
        goal: usize,
        seed: Option<u64>,
    ) -> (r: Self)
        requires
            edges > 0 ==> nodes > 0,
        ensures
            r.start_node() == start,
            r.goal_node() == goal,
            r.seed_of() == seed,
            r.drawn_within(nodes),
            r.edge_count(nodes as nat) <= edges,
    {
        let mut graph = ShortestPath::new(start, goal);
        graph.set_seed(seed);
        let mut source = Source::new(seed);
        let mut drawn: usize = 0;
        proof {
            assert forall|node: usize| graph.estimate_of(node) == 0 by {}
            assert forall|node: usize| graph.out_edges(node).len() == 0 by {}
            graph.lemma_no_edges_counted(nodes as nat);
        }
        while drawn < edges
            invariant
                edges > 0 ==> nodes > 0,
                graph.start_node() == start,
                graph.goal_node() == goal,
                graph.seed_of() == seed,
                graph.drawn_within(nodes),
                forall|node: usize| graph.estimate_of(node) == 0,
                drawn <= edges,
                graph.edge_count(nodes as nat) <= drawn,
            decreases edges - drawn,
        {
            let from = source.below(0, nodes);
            let to = source.below(0, nodes);
            let cost = source.below(1, 10);
            if from != to {
                let ghost before = graph;
                graph.add_edge(from, to, cost);
                proof {
                    assert forall|node: usize| node >= nodes implies (#[trigger] graph.out_edges(
                        node,
                    )).len() == 0 by {
                        assert(graph.out_edges(node) == before.out_edges(node));
                    }
                    assert forall|node: usize, i: int|
                        0 <= i < graph.out_edges(node).len() implies {
                        &&& (#[trigger] graph.out_edges(node)[i]).0 < nodes
                        &&& graph.out_edges(node)[i].0 != node
                        &&& 1 <= graph.out_edges(node)[i].1 < 10
                    } by {
                        if node == from {
                            if i < before.out_edges(node).len() {
                                assert(graph.out_edges(node)[i] == before.out_edges(node)[i]);
                            }
                        } else {
                            assert(graph.out_edges(node) == before.out_edges(node));
                            assert(graph.out_edges(node)[i] == before.out_edges(node)[i]);
                        }
                    }
                    assert forall|node: usize| graph.estimate_of(node) == 0 by {
                        assert(graph.estimate_of(node) == before.estimate_of(node));
                    }
                    Self::lemma_edge_counted(&before, &graph, from, nodes as nat);
                }
            }
            drawn = drawn + 1;
        }
        let mut node: usize = 0;
        while node < nodes
            invariant
                node <= nodes,
                graph.start_node() == start,
                graph.goal_node() == goal,
                graph.seed_of() == seed,
                forall|v: usize| v >= nodes ==> (#[trigger] graph.out_edges(v)).len() == 0,
                forall|v: usize, i: int|
                    0 <= i < graph.out_edges(v).len() ==> {
                        &&& (#[trigger] graph.out_edges(v)[i]).0 < nodes
                        &&& graph.out_edges(v)[i].0 != v
                        &&& 1 <= graph.out_edges(v)[i].1 < 10
                    },
                forall|v: usize| #[trigger] graph.estimate_of(v) < 20,
                forall|v: usize| v >= node ==> #[trigger] graph.estimate_of(v) == 0,
                graph.estimate_of(goal) == 0,
                graph.edge_count(nodes as nat) <= edges,
            decreases nodes - node,
        {
            let estimate = if node == goal {
                0
            } else {
                source.below(0, 20)
            };
            let ghost before = graph;
            graph.set_heuristic(node, estimate);
            proof {
                assert forall|v: usize| v >= nodes implies (#[trigger] graph.out_edges(v)).len()
                    == 0 by {
                    assert(graph.out_edges(v) == before.out_edges(v));
                }
                assert forall|v: usize, i: int| 0 <= i < graph.out_edges(v).len() implies {
                    &&& (#[trigger] graph.out_edges(v)[i]).0 < nodes
                    &&& graph.out_edges(v)[i].0 != v
                    &&& 1 <= graph.out_edges(v)[i].1 < 10
                } by {
                    assert(graph.out_edges(v) == before.out_edges(v));
                    assert(graph.out_edges(v)[i] == before.out_edges(v)[i]);
                }
                Self::lemma_same_edges_counted(&before, &graph, nodes as nat);
            }
            node = node + 1;
        }
        graph
    }
}

impl Problem for ShortestPath {
    type State = usize;

    open spec fn inv(&self) -> bool {
        true
    }

    open spec fn space(&self) -> Set<usize> {
        Set::full()
    }

    open spec fn start(&self) -> usize {
        self.start_node()
    }

    open spec fn goal(&self, s: usize) -> bool {
        s == self.goal_node()
    }

    open spec fn edges(&self, s: usize) -> Seq<(usize, usize)> {
        self.out_edges(s)
    }

    open spec fn estimate(&self, s: usize) -> usize {
        self.estimate_of(s)
    }

    fn initial_state(&self) -> (s: usize) {
        self.start
    }

    fn is_goal(&self, state: &usize) -> (r: bool) {
        *state == self.goal
    }

    /// The edges out of `state`, in the order in which they were added.
    fn successors(&self, state: &usize) -> (r: Vec<(usize, usize)>) {
        let mut found: Vec<(usize, usize)> = Vec::new();
        match self.graph.get(state) {
            Some(list) => {
                let mut i: usize = 0;
                while i < list.len()
                    invariant
                        i <= list.len(),
                        found@ == list@.take(i as int),
                    decreases list.len() - i,
                {
                    found.push(list[i]);
                    assert(found@ =~= list@.take(i + 1));
                    i = i + 1;
                }
                assert(found@ =~= list@);
            },
            None => {},
        }
        found
    }

    fn heuristic(&self, state: &usize) -> (h: usize) {
        match self.heuristic_values.get(state) {
            Some(value) => *value,
            None => 0,
        }
    }

    /// "Plus court chemin", the number of vertices with edges, the start
    /// and the goal.
    fn description(&self) -> (r: String)
        ensures
            r@ == graph_text(self.sources(), self.start_node(), self.goal_node()),
    {
        let mut out = String::from_str("Plus court chemin: ");
        push_number(&mut out, self.graph.len() as u128, 0);
        out.append(" nœuds, de ");
        push_number(&mut out, self.start as u128, 0);
        out.append(" à ");
        push_number(&mut out, self.goal as u128, 0);
        out
    }
}

/// Where the edges of a cell of a grid lead: to a cell of the grid, at cost
/// 1, and to a distance from the last cell that is at most one less.
proof fn lemma_grid_step(width: int, height: int, cell: int, i: int)
    requires
        width > 0,
        height > 0,
        width * height <= usize::MAX,
        0 <= cell < width * height,
        0 <= i < grid_edges(width, height, cell).len(),
    ensures
        grid_edges(width, height, cell)[i].0 < width * height,
        grid_edges(width, height, cell)[i].1 == 1,
        grid_estimate(width, height, cell) <= 1 + grid_estimate(
            width,
            height,
            grid_edges(width, height, cell)[i].0 as int,
        ),
        0 <= grid_estimate(width, height, cell) <= width + height,
{
    let row = cell / width;
    let col = cell % width;
    let last = width * height - 1;
    vstd::arithmetic::div_mod::lemma_fundamental_div_mod(cell, width);
    assert(0 <= row < height) by (nonlinear_arith)
        requires
            0 <= cell < width * height,
            cell == width * row + col,
            0 <= col < width,
            width > 0,
    ;
    assert(last == (height - 1) * width + (width - 1)) by (nonlinear_arith)
        requires
            last == width * height - 1,
    ;
    lemma_fundamental_div_mod_converse(last, width, height - 1, width - 1);
    assert(cell == row * width + col) by (nonlinear_arith)
        requires
            cell == width * row + col,
    ;
    let right: Seq<(usize, usize)> = if col < width - 1 {
        seq![((cell + 1) as usize, 1usize)]
    } else {
        seq![]
    };
    let down: Seq<(usize, usize)> = if row < height - 1 {
        seq![((cell + width) as usize, 1usize)]
    } else {
        seq![]
    };
    let left: Seq<(usize, usize)> = if col > 0 {
        seq![((cell - 1) as usize, 1usize)]
    } else {
        seq![]
    };
    let up: Seq<(usize, usize)> = if row > 0 {
        seq![((cell - width) as usize, 1usize)]
    } else {
        seq![]
    };
    assert(grid_edges(width, height, cell) == right + down + left + up);
    let edge = (right + down + left + up)[i];
    if i < right.len() {
        assert(edge == right[i]);
        lemma_fundamental_div_mod_converse(cell + 1, width, row, col + 1);
    } else if i < right.len() + down.len() {
        assert(edge == down[i - right.len()]);
        assert(cell + width == (row + 1) * width + col && cell + width < width * height)
            by (nonlinear_arith)
            requires
                cell == row * width + col,
                0 <= row < height - 1,
                0 <= col < width,
        ;
        lemma_fundamental_div_mod_converse(cell + width, width, row + 1, col);
    } else if i < right.len() + down.len() + left.len() {
        assert(edge == left[i - right.len() - down.len()]);
        lemma_fundamental_div_mod_converse(cell - 1, width, row, col - 1);
    } else {
        assert(edge == up[i - right.len() - down.len() - left.len()]);
        assert(cell - width == (row - 1) * width + col && cell - width >= 0) by (nonlinear_arith)
            requires
                cell == row * width + col,
                row > 0,
                col >= 0,
                width > 0,
        ;
        lemma_fundamental_div_mod_converse(cell - width, width, row - 1, col);
    }
}

impl ShortestPath {
    /// The graph is the grid of `width` by `height` cells: the search
    /// starts in the first cell and is to reach the last, each cell has its
    /// neighbours at cost 1, and its estimate is its Manhattan distance to
    /// the last cell.
    pub open spec fn is_grid(&self, width: usize, height: usize) -> bool {
        &&& 1 <= width * height <= usize::MAX
        &&& self.start_node() == 0
        &&& self.goal_node() == width * height - 1
        &&& forall|cell: usize|
            #[trigger] self.out_edges(cell) == grid_edges(width as int, height as int, cell as int)
        &&& forall|cell: usize|
            #[trigger] self.estimate_of(cell) == grid_estimate(
                width as int,
                height as int,
                cell as int,
            )
    }
}

/// What holds of the edges of a grid: they lead from cells to cells, cost
/// 1, and lower the estimate by 1 at most; the estimate of the last cell
/// is 0.
proof fn lemma_grid_edges(g: &ShortestPath, width: usize, height: usize)
    requires
        g.is_grid(width, height),
    ensures
        width > 0,
        height > 0,
        closed_under_edges(g, Set::<usize>::range(0, (width * height) as usize)),
        unit_costs(g),
        consistent(g),
        admissible(g),
        well_formed(g),
{
    let w = width as int;
    let h = height as int;
    let cells = (width * height) as usize;
    assert(w > 0 && h > 0) by (nonlinear_arith)
        requires
            1 <= w * h,
            w >= 0,
            h >= 0,
    ;
    lemma_graph_well_formed(g);
    let region = Set::<usize>::range(0, cells);
    assert forall|s: usize, a: int| 0 <= a < g.edges(s).len() implies s < cells && (
    #[trigger] g.edges(s)[a]).0 < cells && g.edges(s)[a].1 == 1 && g.estimate(s) <= 1
        + g.estimate(g.edges(s)[a].0) by {
        assert(g.out_edges(s) == grid_edges(w, h, s as int));
        let t = g.edges(s)[a].0;
        assert(g.estimate_of(t) == grid_estimate(w, h, t as int));
        assert(g.estimate_of(s) == grid_estimate(w, h, s as int));
        lemma_grid_step(w, h, s as int, a);
    }
    assert(closed_under_edges(g, region));
    assert(unit_costs(g));
    assert(consistent(g));
    assert forall|s: usize| g.space().contains(s) && g.goal(s) implies #[trigger] g.estimate(s)
        == 0 by {
        assert(g.estimate_of(s) == grid_estimate(w, h, s as int));
    }
    lemma_consistent_is_admissible(g);
}

/// A grid is a problem on which the searches that use no estimate keep
/// their promise in full: it is well-formed, its edges cost 1, and its
/// walks fit in machine words, since a walk that visits no cell twice has
/// fewer actions than there are cells. Its estimate is consistent and
/// admissible.
pub proof fn lemma_grid_walks_fit(g: &ShortestPath, width: usize, height: usize)
    requires
        g.is_grid(width, height),
    ensures
        well_formed(g),
        unit_costs(g),
        walks_fit(g),
        consistent(g),
        admissible(g),
{
    let cells = (width * height) as usize;
    let region = Set::<usize>::range(0, cells);
    lemma_grid_edges(g, width, height);
    broadcast use vstd::set_lib::range_set_properties;

    assert(region.finite() && region.len() == cells);
    assert forall|actions: Seq<usize>| #[trigger] simple_walk(g, actions) implies actions.len()
        <= usize::MAX && walk_cost(g, g.start(), actions) <= usize::MAX by {
        lemma_simple_walk_within(g, region, actions);
        lemma_unit_cost_is_length(g, actions);
    }
}

/// A grid is a problem on which every search keeps its promise in full, as
/// long as the number of its cells and the lengths of its sides together
/// fit in a machine word: then the scores of its walks fit too.
pub proof fn lemma_grid_is_searchable(g: &ShortestPath, width: usize, height: usize)
    requires
        g.is_grid(width, height),
        width * height + width + height <= usize::MAX,
    ensures
        well_formed(g),
        unit_costs(g),
        walks_fit(g),
        scores_fit(g),
        consistent(g),
        admissible(g),
{
    let w = width as int;
    let h = height as int;
    let cells = (width * height) as usize;
    let region = Set::<usize>::range(0, cells);
    lemma_grid_edges(g, width, height);
    broadcast use vstd::set_lib::range_set_properties;

    assert(region.finite() && region.len() == cells);
    assert forall|actions: Seq<usize>| #[trigger] simple_walk(g, actions) implies actions.len()
        <= usize::MAX && walk_cost(g, g.start(), actions) + g.estimate(
        walk_end(g, g.start(), actions),
    ) <= usize::MAX by {
        lemma_simple_walk_within(g, region, actions);
        lemma_unit_cost_is_length(g, actions);
        let end = walk_end(g, g.start(), actions);
        assert(g.estimate_of(end) == grid_estimate(w, h, end as int));
        assert(0 <= grid_estimate(w, h, end as int) <= w + h) by {
            let row = end as int / w;
            let col = end as int % w;
            let last = w * h - 1;
            vstd::arithmetic::div_mod::lemma_fundamental_div_mod(end as int, w);
            assert(0 <= row < h) by (nonlinear_arith)
                requires
                    0 <= end < w * h,
                    end == w * row + col,
                    0 <= col < w,
                    w > 0,
            ;
            assert(last == (h - 1) * w + (w - 1)) by (nonlinear_arith)
                requires
                    last == w * h - 1,
            ;
            lemma_fundamental_div_mod_converse(last, w, h - 1, w - 1);
        }
    }
    lemma_scores_fit_walks(g);
}

/// A depth bound of the number of the cells of a grid, less one, or more
/// cuts nothing off: no walk that visits no cell twice is longer.
pub proof fn lemma_grid_depth_suffices(
    g: &ShortestPath,
    width: usize,
    height: usize,
    max_depth: usize,
)
    requires
        g.is_grid(width, height),
        width * height <= max_depth + 1,
    ensures
        depth_suffices(g, Some(max_depth)),
{
    let w = width as int;
    let h = height as int;
    let cells = (width * height) as usize;
    assert(w > 0 && h > 0) by (nonlinear_arith)
        requires
            1 <= w * h,
            w >= 0,
            h >= 0,
    ;
    let region = Set::<usize>::range(0, cells);
    broadcast use vstd::set_lib::range_set_properties;

    assert(region.finite() && region.len() == cells);
    assert forall|s: usize, a: int| 0 <= a < g.edges(s).len() implies s < cells && (
    #[trigger] g.edges(s)[a]).0 < cells by {
        assert(g.out_edges(s) == grid_edges(w, h, s as int));
        lemma_grid_step(w, h, s as int, a);
    }
    assert(closed_under_edges(g, region));
    assert forall|actions: Seq<usize>| #[trigger] simple_walk(g, actions) implies actions.len()
        <= max_depth by {
        lemma_simple_walk_within(g, region, actions);
    }
}

/// The way through a grid that always takes the first edge: along the
/// first row to its end, then down the last column.
pub open spec fn first_edges(n: nat) -> Seq<usize> {
    Seq::new(n, |i: int| 0usize)
}

/// The cell that the first `n` steps along the first row and down the last
/// column lead to.
pub open spec fn cell_on_the_way(width: int, n: int) -> int {
    if n <= width - 1 {
        n
    } else {
        (width - 1) + (n - (width - 1)) * width
    }
}

/// The first edge of a cell in the first row leads to the right, and the
/// first edge of a cell in the last column leads down.
proof fn lemma_first_edge(width: int, height: int, n: int)
    requires
        width > 0,
        height > 0,
        width * height <= usize::MAX,
        0 <= n < width + height - 2,
    ensures
        0 <= cell_on_the_way(width, n) < width * height,
        0 <= cell_on_the_way(width, n + 1) < width * height,
        grid_edges(width, height, cell_on_the_way(width, n)).len() > 0,
        grid_edges(width, height, cell_on_the_way(width, n))[0] == (
            cell_on_the_way(width, n + 1) as usize,
            1usize,
        ),
{
    let cell = cell_on_the_way(width, n);
    if n < width - 1 {
        assert(cell == n);
        assert(width <= width * height) by (nonlinear_arith)
            requires
                width > 0,
                height > 0,
        ;
        lemma_fundamental_div_mod_converse(cell, width, 0, n);
        assert(cell_on_the_way(width, n + 1) == cell + 1);
    } else {
        let k = n - (width - 1);
        assert(cell == k * width + (width - 1)) by (nonlinear_arith)
            requires
                cell == if n <= width - 1 {
                    n
                } else {
                    (width - 1) + (n - (width - 1)) * width
                },
                k == n - (width - 1),
                n >= width - 1,
        ;
        assert(cell + width == (k + 1) * width + (width - 1) && cell + width < width * height
            && 0 <= k * width && cell < width * height) by (nonlinear_arith)
            requires
                cell == k * width + (width - 1),
                0 <= k < height - 1,
                width > 0,
        ;
        lemma_fundamental_div_mod_converse(cell, width, k, width - 1);
        assert(cell_on_the_way(width, n + 1) == cell + width) by (nonlinear_arith)
            requires
                cell == k * width + (width - 1),
                k == n - (width - 1),
                n >= width - 1,
                cell_on_the_way(width, n + 1) == (width - 1) + (n + 1 - (width - 1)) * width,
        ;
    }
}

/// Always taking the first edge leads along the first row and down the
/// last column.
proof fn lemma_first_edges_lead(g: &ShortestPath, width: usize, height: usize, n: nat)
    requires
        g.is_grid(width, height),
        n <= width + height - 2,
    ensures
        walk_ok(g, g.start(), first_edges(n)),
        walk_end(g, g.start(), first_edges(n)) == cell_on_the_way(width as int, n as int),
    decreases n,
{
    let w = width as int;
    let h = height as int;
    assert(w > 0 && h > 0) by (nonlinear_arith)
        requires
            1 <= w * h,
            w >= 0,
            h >= 0,
    ;
    if n > 0 {
        let m = (n - 1) as nat;
        lemma_first_edges_lead(g, width, height, m);
        lemma_first_edge(w, h, m as int);
        assert(first_edges(n).drop_last() =~= first_edges(m));
        assert(first_edges(n).last() == 0);
        let cell = cell_on_the_way(w, m as int);
        assert(g.out_edges(cell as usize) == grid_edges(w, h, cell));
    } else {
        assert(first_edges(0) =~= Seq::<usize>::empty());
    }
}

/// The least number of steps through a grid is what its sides are long
/// together, less two: so many steps lead from the first cell to the last,
/// and no solution has fewer.
pub proof fn lemma_grid_least_steps(g: &ShortestPath, width: usize, height: usize)
    requires
        g.is_grid(width, height),
    ensures
        solvable(g),
        is_solution(g, first_edges((width + height - 2) as nat)),
        forall|actions: Seq<usize>| #[trigger]
            is_solution(g, actions) ==> actions.len() >= width + height - 2 && solution_cost(
                g,
                actions,
            ) == actions.len(),
{
    let w = width as int;
    let h = height as int;
    assert(w > 0 && h > 0) by (nonlinear_arith)
        requires
            1 <= w * h,
            w >= 0,
            h >= 0,
    ;
    let steps = (width + height - 2) as nat;
    lemma_first_edges_lead(g, width, height, steps);
    assert(cell_on_the_way(w, steps as int) == w * h - 1) by (nonlinear_arith)
        requires
            steps == w + h - 2,
            w > 0,
            h > 0,
            cell_on_the_way(w, steps as int) == if steps <= w - 1 {
                steps as int
            } else {
                (w - 1) + (steps - (w - 1)) * w
            },
    ;
    assert(is_solution(g, first_edges(steps)));
    lemma_grid_walks_fit(g, width, height);
    assert(g.estimate_of(0) == grid_estimate(w, h, 0));
    assert(grid_estimate(w, h, 0) == w + h - 2) by {
        let last = w * h - 1;
        assert(last == (h - 1) * w + (w - 1)) by (nonlinear_arith)
            requires
                last == w * h - 1,
        ;
        lemma_fundamental_div_mod_converse(last, w, h - 1, w - 1);
        lemma_fundamental_div_mod_converse(0, w, 0, 0);
    }
    assert forall|actions: Seq<usize>| #[trigger] is_solution(g, actions) implies actions.len()
        >= width + height - 2 && solution_cost(g, actions) == actions.len() by {
        lemma_unit_cost_is_length(g, actions);
    }
}

/// Every graph is a well-formed problem: its states are the machine words.
pub proof fn lemma_graph_well_formed(g: &ShortestPath)
    ensures
        well_formed(g),
{
    broadcast use vstd::set_lib::full_set_properties;
    assert(state_laws::<usize>());
    assert(closed_space(g));
}

} // verus!
