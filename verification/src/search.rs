use vstd::prelude::*;
use crate::heading::{Heading, heading_for_offset, heading_or_north, is_unit_offset, lemma_turn_penalty, turn_penalty};
use crate::coords::{Cell, NodeCoords, calculate_base_inertia};
use crate::grid::{MovementGrid, get_neighbours, is_step_node, lemma_neighbours_sound, lemma_neighbours_complete, step_node};

verus! {

/// A search state: a cell and the heading a unit has on it.
#[derive(Clone, Copy, Debug, PartialEq, Eq, Structural)]
pub struct SearchState {
    pub x: u32,
    pub y: u32,
    pub h: Heading,
}

/// The search record of a state: its estimated total cost `f_score`, its
/// cost from the start `g_score` (-1 while the state is unvisited) and the
/// state it was last reached from.
#[derive(Clone, Copy, Debug)]
pub struct AStarNode {
    pub f_score: i64,
    pub g_score: i64,
    pub came_from: Option<SearchState>,
}

/// Position of a state in the flat table of search records of a grid with
/// `height` rows.
pub open spec fn state_index(s: SearchState, height: int) -> int {
    (s.x * height + s.y) * 8 + s.h.ord()
}

pub open spec fn node_at(nodes: Seq<AStarNode>, s: SearchState, height: int) -> AStarNode {
    nodes[state_index(s, height)]
}

pub open spec fn is_visited(nodes: Seq<AStarNode>, s: SearchState, height: int) -> bool {
    node_at(nodes, s, height).g_score >= 0
}

pub open spec fn valid_state(grid: &MovementGrid, s: SearchState) -> bool {
    grid.in_bounds(s.x as int, s.y as int)
}

/// Number of states of a grid.
pub open spec fn state_count(grid: &MovementGrid) -> int {
    grid.width() * grid.height() * 8
}

pub open spec fn start_state(start: Cell) -> SearchState {
    SearchState { x: start.x, y: start.y, h: Heading::N }
}

/// The cost of a step from cell `a`, facing `h`, to the adjacent cell `b`:
/// the diagonal or straight step cost for the turn from `h` to the heading
/// of the step.
pub open spec fn move_cost(costs: &MoveCosts, h: Heading, a: Cell, b: Cell) -> int {
    let p = turn_penalty(h, heading_for_offset(b.x - a.x, b.y - a.y));
    if a.x != b.x && a.y != b.y {
        costs.diagonal@[p] as int
    } else {
        costs.straight@[p] as int
    }
}

/// The estimate of the cost from cell `c` to the target.
pub open spec fn heuristic_at(costs: &MoveCosts, c: Cell) -> int {
    costs.heuristic@[c.x as int]@[c.y as int] as int
}

/// The record of a visited state `s` other than the start names a parent:
/// a visited state off the target cell, from whose cell a unit may step to
/// the cell of `s`, `s` facing the heading of that step; the cost of `s` is
/// at least that of the parent plus the step, and its estimate is its cost
/// plus the heuristic of its cell.
pub open spec fn has_parent(
    grid: &MovementGrid,
    costs: &MoveCosts,
    nodes: Seq<AStarNode>,
    height: int,
    target: Cell,
    s: SearchState,
) -> bool {
    match node_at(nodes, s, height).came_from {
        Some(p) => {
            &&& valid_state(grid, p)
            &&& is_visited(nodes, p, height)
            &&& node_at(nodes, p, height).g_score < node_at(nodes, s, height).g_score
            &&& node_at(nodes, p, height).g_score + move_cost(costs, p.h, state_cell(p), state_cell(s))
                <= node_at(nodes, s, height).g_score
            &&& node_at(nodes, s, height).f_score == node_at(nodes, s, height).g_score + heuristic_at(costs, state_cell(s))
            &&& grid.can_step(p.x as int, p.y as int, s.x as int, s.y as int)
            &&& s.h == heading_for_offset(s.x - p.x, s.y - p.y)
            &&& !(p.x == target.x && p.y == target.y)
        },
        None => false,
    }
}

/// The parent links of the search table: the start has cost 0 and no
/// parent; every other visited state has a parent.
#[verifier::opaque]
pub open spec fn parents_ok(grid: &MovementGrid, costs: &MoveCosts, nodes: Seq<AStarNode>, start: Cell, target: Cell) -> bool {
    let height = grid.height();
    &&& nodes.len() == state_count(grid)
    &&& node_at(nodes, start_state(start), height).g_score == 0
    &&& node_at(nodes, start_state(start), height).came_from is None
    &&& node_at(nodes, start_state(start), height).f_score == -1
    &&& forall|s: SearchState|
        #![trigger has_parent(grid, costs, nodes, height, target, s)]
        valid_state(grid, s) && is_visited(nodes, s, height) && s != start_state(start)
            ==> has_parent(grid, costs, nodes, height, target, s)
}

proof fn lemma_parent(grid: &MovementGrid, costs: &MoveCosts, nodes: Seq<AStarNode>, start: Cell, target: Cell, s: SearchState)
    requires
        parents_ok(grid, costs, nodes, start, target),
    ensures
        nodes.len() == state_count(grid),
        node_at(nodes, start_state(start), grid.height()).g_score == 0,
        node_at(nodes, start_state(start), grid.height()).came_from is None,
        node_at(nodes, start_state(start), grid.height()).f_score == -1,
        valid_state(grid, s) && is_visited(nodes, s, grid.height()) && s != start_state(start)
            ==> has_parent(grid, costs, nodes, grid.height(), target, s),
{
    reveal(parents_ok);
}

/// In a table with sound parent links, following the links from a visited
/// state comes to the start within as many links as its cost.
proof fn lemma_chain_ends(
    grid: &MovementGrid,
    costs: &MoveCosts,
    nodes: Seq<AStarNode>,
    start: Cell,
    target: Cell,
    s: SearchState,
    k: nat,
)
    requires
        parents_ok(grid, costs, nodes, start, target),
        valid_state(grid, s),
        is_visited(nodes, s, grid.height()),
        k >= node_at(nodes, s, grid.height()).g_score,
    ensures
        chain_ends(grid, nodes, s, k),
    decreases k,
{
    lemma_parent(grid, costs, nodes, start, target, s);
    if s != start_state(start) {
        let p = node_at(nodes, s, grid.height()).came_from.unwrap();
        lemma_chain_ends(grid, costs, nodes, start, target, p, (k - 1) as nat);
    }
}

proof fn lemma_index_bounds(s: SearchState, width: int, height: int)
    requires
        0 <= s.x < width,
        0 <= s.y < height,
    ensures
        0 <= state_index(s, height) < width * height * 8,
{
    let x = s.x as int;
    let y = s.y as int;
    assert(0 <= x * height + y < width * height) by (nonlinear_arith)
        requires 0 <= x < width, 0 <= y < height;
}

proof fn lemma_index_injective(s: SearchState, t: SearchState, height: int)
    requires
        0 <= s.y < height,
        0 <= t.y < height,
        state_index(s, height) == state_index(t, height),
    ensures
        s == t,
{
    let a = s.x * height + s.y;
    let b = t.x * height + t.y;
    assert(a == b);
    let sx = s.x as int;
    let tx = t.x as int;
    let sy = s.y as int;
    let ty = t.y as int;
    assert(sx == tx) by (nonlinear_arith)
        requires sx * height + sy == tx * height + ty, 0 <= sy < height, 0 <= ty < height, sx >= 0, tx >= 0;
    assert(s.h.ord() == t.h.ord());
}

/// Distinct states of a grid have distinct table positions.
proof fn lemma_index_distinct(grid: &MovementGrid, s: SearchState, t: SearchState)
    requires
        valid_state(grid, s),
        valid_state(grid, t),
        s != t,
    ensures
        state_index(s, grid.height()) != state_index(t, grid.height()),
{
    if state_index(s, grid.height()) == state_index(t, grid.height()) {
        lemma_index_injective(s, t, grid.height());
    }
}

/// Table position of a state.
fn index_of(s: &SearchState, height: usize, Ghost(width): Ghost<int>) -> (i: usize)
    requires
        s.x < width,
        s.y < height,
        width * height * 8 <= usize::MAX,
    ensures
        i == state_index(*s, height as int),
        i < width * height * 8,
{
    proof {
        lemma_index_bounds(*s, width, height as int);
        let x = s.x as int;
        let hh = height as int;
        assert(0 <= x * hh <= x * hh + s.y) by (nonlinear_arith)
            requires x >= 0, hh >= 0, s.y >= 0;
    }
    let base: usize = s.x as usize * height + s.y as usize;
    base * 8 + s.h.index() as usize
}

/// Link `k` of a path that runs backwards: a unit on the cell of node `k`
/// may step to the cell of node `k - 1`, and from the second link on, node
/// `k - 1` faces the heading of that step.
pub open spec fn chain_link(grid: &MovementGrid, path: Seq<NodeCoords>, k: int) -> bool {
    &&& grid.can_step(path[k].xy.x as int, path[k].xy.y as int, path[k - 1].xy.x as int, path[k - 1].xy.y as int)
    &&& k >= 2 ==> path[k - 1].h == Some(
        heading_for_offset(path[k - 1].xy.x - path[k].xy.x, path[k - 1].xy.y - path[k].xy.y),
    )
}

/// `path` runs backwards to `start` along allowed steps: it ends on the
/// start cell (facing north when there is more than one node), and every
/// link is an allowed step whose node faces the heading of the step, except
/// that the first node carries the heading of the node after it.
pub open spec fn is_chain_to(grid: &MovementGrid, path: Seq<NodeCoords>, start: Cell) -> bool {
    &&& path.len() >= 1
    &&& path.last().xy == start
    &&& path.len() >= 2 ==> path.last().h == Some(Heading::N)
    &&& forall|k: int| 1 <= k < path.len() ==> #[trigger] chain_link(grid, path, k)
}

/// The state behind node `k` of a path listed back from `end`: the parent
/// of `end` for the first node, whose heading the node does not carry, and
/// the node's own state after it.
pub open spec fn path_state(nodes: Seq<AStarNode>, end: SearchState, path: Seq<NodeCoords>, k: int, height: int) -> SearchState {
    if k == 0 {
        node_at(nodes, end, height).came_from.unwrap()
    } else {
        node_state(path[k])
    }
}

/// Node `k` of the path is the parent of node `k - 1`.
pub open spec fn parent_link(nodes: Seq<AStarNode>, end: SearchState, path: Seq<NodeCoords>, k: int, height: int) -> bool {
    node_at(nodes, path_state(nodes, end, path, k - 1, height), height).came_from == Some(path_state(nodes, end, path, k, height))
}

/// `path` lists the parent links of the table back from `end`, exactly:
/// its first node stands on the cell of the parent of `end`, each further
/// node is the parent of the state before it, every node carries a heading,
/// and the last state has no parent.
pub open spec fn follows_parents(nodes: Seq<AStarNode>, end: SearchState, path: Seq<NodeCoords>, height: int) -> bool {
    &&& node_at(nodes, end, height).came_from is Some
    &&& path.len() >= 1
    &&& path[0].xy == state_cell(path_state(nodes, end, path, 0, height))
    &&& forall|k: int| 0 <= k < path.len() ==> (#[trigger] path[k]).h is Some
    &&& forall|k: int| 1 <= k < path.len() ==> #[trigger] parent_link(nodes, end, path, k, height)
    &&& node_at(nodes, path_state(nodes, end, path, path.len() - 1, height), height).came_from is None
}

/// Following the parent links from `s` stays on states of the grid and
/// comes, after at most `k` links, to a state without parent.
pub open spec fn chain_ends(grid: &MovementGrid, nodes: Seq<AStarNode>, s: SearchState, k: nat) -> bool
    decreases k,
{
    &&& valid_state(grid, s)
    &&& match node_at(nodes, s, grid.height()).came_from {
        None => true,
        Some(p) => if k > 0 {
            chain_ends(grid, nodes, p, (k - 1) as nat)
        } else {
            false
        },
    }
}

/// Follows the parent links back from the state `end`, which has a parent,
/// and lists the nodes passed: the cell of the parent of `end` with the
/// heading of `end`, then every further ancestor with its own heading, up
/// to the state that has no parent.
pub fn reconstruct_path(nodes: &Vec<AStarNode>, end: SearchState, gridmap: &MovementGrid, height: usize) -> (total_path: Vec<
    NodeCoords,
>)
    requires
        height == gridmap.height(),
        nodes@.len() == state_count(gridmap),
        state_count(gridmap) <= usize::MAX,
        node_at(nodes@, end, height as int).came_from is Some,
        exists|k: nat| chain_ends(gridmap, nodes@, end, k),
    ensures
        follows_parents(nodes@, end, total_path@, height as int),
        total_path@[0].h == Some(end.h),
{
    let ghost hh = height as int;
    let ghost width = gridmap.width();
    let ghost k0 = choose|k: nat| chain_ends(gridmap, nodes@, end, k);
    let mut total_path: Vec<NodeCoords> = Vec::new();
    let end_index = index_of(&end, height, Ghost(width));
    let mut current: SearchState = match nodes[end_index].came_from {
        Some(p) => p,
        None => {
            return total_path;
        },
    };
    let ghost mut rem: nat = (k0 - 1) as nat;
    total_path.push(NodeCoords { xy: Cell { x: current.x, y: current.y }, h: Some(end.h) });
    loop
        invariant
            height == gridmap.height(),
            hh == height,
            width == gridmap.width(),
            state_count(gridmap) <= usize::MAX,
            nodes@.len() == state_count(gridmap),
            chain_ends(gridmap, nodes@, current, rem),
            total_path@.len() >= 1,
            total_path@[0].h == Some(end.h),
            node_at(nodes@, end, hh).came_from is Some,
            total_path@[0].xy == state_cell(path_state(nodes@, end, total_path@, 0, hh)),
            current == path_state(nodes@, end, total_path@, total_path@.len() - 1, hh),
            forall|k: int| 0 <= k < total_path@.len() ==> (#[trigger] total_path@[k]).h is Some,
            forall|k: int| 1 <= k < total_path@.len() ==> #[trigger] parent_link(nodes@, end, total_path@, k, hh),
        ensures
            node_at(nodes@, current, hh).came_from is None,
        decreases rem,
    {
        let i = index_of(&current, height, Ghost(width));
        match nodes[i].came_from {
            Some(p) => {
                let ghost old_path = total_path@;
                total_path.push(NodeCoords { xy: Cell { x: p.x, y: p.y }, h: Some(p.h) });
                current = p;
                proof {
                    rem = (rem - 1) as nat;
                }
                assert forall|k: int|
                    1 <= k < total_path@.len() implies #[trigger] parent_link(nodes@, end, total_path@, k, hh) by {
                    if k < total_path@.len() - 1 {
                        assert(parent_link(nodes@, end, old_path, k, hh));
                        assert(path_state(nodes@, end, total_path@, k, hh) == path_state(nodes@, end, old_path, k, hh));
                        assert(path_state(nodes@, end, total_path@, k - 1, hh) == path_state(nodes@, end, old_path, k - 1, hh));
                    } else {
                        assert(path_state(nodes@, end, total_path@, k - 1, hh) == path_state(nodes@, end, old_path, k - 1, hh));
                    }
                }
                assert forall|k: int| 0 <= k < total_path@.len() implies (#[trigger] total_path@[k]).h is Some by {
                    if k < total_path@.len() - 1 {
                        assert(old_path[k] == total_path@[k]);
                    }
                }
            },
            None => {
                break;
            },
        }
    }
    total_path
}

/// The cells of a path listed back from a state on cell `end`, in walking
/// order: from the last node to the first, then `end`.
pub open spec fn path_walk(path: Seq<NodeCoords>, end: Cell) -> Seq<Cell> {
    Seq::new((path.len() + 1) as nat, |i: int| if i < path.len() { path[path.len() - 1 - i].xy } else { end })
}

/// The cost of walking the cells of `w` in turn, starting on `w[0]` facing
/// `h`; on each later cell the unit faces the heading of the step into it.
/// Each step is charged `diagonal[p]` when it changes both coordinates and
/// `straight[p]` otherwise, `p` being the turn penalty between the heading
/// the unit has before the step and the heading of the step.
pub open spec fn walk_cost(costs: &MoveCosts, h: Heading, w: Seq<Cell>) -> int
    decreases w.len(),
{
    if w.len() <= 1 {
        0
    } else {
        let turn = turn_penalty(h, heading_for_offset(w[1].x - w[0].x, w[1].y - w[0].y));
        let step = if w[0].x != w[1].x && w[0].y != w[1].y {
            costs.diagonal@[turn] as int
        } else {
            costs.straight@[turn] as int
        };
        step + walk_cost(
            costs,
            heading_for_offset(w[1].x - w[0].x, w[1].y - w[0].y),
            w.drop_first(),
        )
    }
}

proof fn lemma_walk_cost_single(costs: &MoveCosts, h: Heading, w: Seq<Cell>)
    requires
        w.len() == 2,
    ensures
        walk_cost(costs, h, w) == move_cost(costs, h, w[0], w[1]),
{
    let h1 = heading_for_offset(w[1].x - w[0].x, w[1].y - w[0].y);
    assert(w.drop_first().len() == 1);
    assert(walk_cost(costs, h1, w.drop_first()) == 0);
}

pub proof fn lemma_walk_cost_prepend(costs: &MoveCosts, h: Heading, a: Cell, w: Seq<Cell>)
    requires
        w.len() >= 1,
    ensures
        walk_cost(costs, h, seq![a] + w) == move_cost(costs, h, a, w[0]) + walk_cost(
            costs,
            heading_for_offset(w[0].x - a.x, w[0].y - a.y),
            w,
        ),
{
    let v = seq![a] + w;
    assert(v.drop_first() =~= w);
    assert(v[0] == a);
    assert(v[1] == w[0]);
}

/// Facts about the first `k + 1` nodes of a path that follows the parent
/// links of a search table back from `end`.
proof fn lemma_chain_prefix(
    grid: &MovementGrid,
    costs: &MoveCosts,
    nodes: Seq<AStarNode>,
    start: Cell,
    target: Cell,
    end: SearchState,
    path: Seq<NodeCoords>,
    k: int,
)
    requires
        parents_ok(grid, costs, nodes, start, target),
        follows_parents(nodes, end, path, grid.height()),
        valid_state(grid, end),
        is_visited(nodes, end, grid.height()),
        end != start_state(start),
        0 <= k < path.len(),
    ensures
        valid_state(grid, path_state(nodes, end, path, k, grid.height())),
        is_visited(nodes, path_state(nodes, end, path, k, grid.height()), grid.height()),
        path[k].xy == state_cell(path_state(nodes, end, path, k, grid.height())),
        forall|i: int| 1 <= i <= k ==> #[trigger] chain_link(grid, path, i),
        forall|i: int| 0 <= i <= k ==> !((#[trigger] path[i]).xy.x == target.x && path[i].xy.y == target.y),
        walk_cost(costs, path_state(nodes, end, path, k, grid.height()).h, path_walk(path.take(k + 1), state_cell(end)))
            <= node_at(nodes, end, grid.height()).g_score - node_at(
            nodes,
            path_state(nodes, end, path, k, grid.height()),
            grid.height(),
        ).g_score,
        grid.can_step(path[0].xy.x as int, path[0].xy.y as int, end.x as int, end.y as int),
        end.h == heading_for_offset(end.x - path[0].xy.x, end.y - path[0].xy.y),
    decreases k,
{
    let hh = grid.height();
    let e = state_cell(end);
    let s = path_state(nodes, end, path, k, hh);
    lemma_parent(grid, costs, nodes, start, target, end);
    assert(has_parent(grid, costs, nodes, hh, target, end));
    if k == 0 {
        let w = path_walk(path.take(1), e);
        assert(w =~= seq![path[0].xy, e]);
        lemma_walk_cost_single(costs, s.h, w);
    } else {
        lemma_chain_prefix(grid, costs, nodes, start, target, end, path, k - 1);
        let s1 = path_state(nodes, end, path, k - 1, hh);
        assert(parent_link(nodes, end, path, k, hh));
        lemma_parent(grid, costs, nodes, start, target, s1);
        assert(s1 != start_state(start));
        assert(has_parent(grid, costs, nodes, hh, target, s1));
        assert(path[k].h is Some);
        assert(path[k - 1].h is Some);
        assert(chain_link(grid, path, k));
        assert forall|i: int| 1 <= i <= k implies #[trigger] chain_link(grid, path, i) by {
        }
        assert forall|i: int| 0 <= i <= k implies !((#[trigger] path[i]).xy.x == target.x && path[i].xy.y == target.y) by {
        }
        let w1 = path_walk(path.take(k), e);
        let w = path_walk(path.take(k + 1), e);
        assert(w =~= seq![path[k].xy] + w1);
        assert(w1[0] == path[k - 1].xy);
        lemma_walk_cost_prepend(costs, s.h, path[k].xy, w1);
    }
}

/// A path that follows the parent links of a search table back from a
/// visited state `end` other than the start runs back to the start along
/// allowed steps, never stands on the target cell, and walking it costs at
/// most the cost of `end`.
pub proof fn lemma_reconstructed_chain(
    grid: &MovementGrid,
    costs: &MoveCosts,
    nodes: Seq<AStarNode>,
    start: Cell,
    target: Cell,
    end: SearchState,
    path: Seq<NodeCoords>,
)
    requires
        parents_ok(grid, costs, nodes, start, target),
        follows_parents(nodes, end, path, grid.height()),
        valid_state(grid, end),
        is_visited(nodes, end, grid.height()),
        end != start_state(start),
    ensures
        is_chain_to(grid, path, start),
        grid.can_step(path[0].xy.x as int, path[0].xy.y as int, end.x as int, end.y as int),
        end.h == heading_for_offset(end.x - path[0].xy.x, end.y - path[0].xy.y),
        forall|i: int| 0 <= i < path.len() ==> !((#[trigger] path[i]).xy.x == target.x && path[i].xy.y == target.y),
        walk_cost(costs, Heading::N, path_walk(path, state_cell(end))) <= node_at(nodes, end, grid.height()).g_score,
{
    let hh = grid.height();
    let n = path.len();
    lemma_chain_prefix(grid, costs, nodes, start, target, end, path, n - 1);
    let s = path_state(nodes, end, path, n - 1, hh);
    lemma_parent(grid, costs, nodes, start, target, s);
    assert(s == start_state(start));
    assert(path.take(n as int) =~= path);
    if n >= 2 {
        assert(path[n - 1].h is Some);
    }
}

/// Integer costs of the search, scaled by the caller: `straight[p]` and
/// `diagonal[p]` are the costs of a straight and of a diagonal step whose
/// turn penalty is `p`, and `heuristic[x][y]` is the estimated cost from
/// cell `(x, y)` to the target.
pub struct MoveCosts {
    pub straight: Vec<i32>,
    pub diagonal: Vec<i32>,
    pub heuristic: Vec<Vec<i32>>,
}

impl MoveCosts {
    /// Step costs are given for the five turn penalties and are positive;
    /// the estimate is given, non-negative, for every cell of `grid`.
    pub open spec fn fits(&self, grid: &MovementGrid) -> bool {
        &&& self.straight@.len() == 5
        &&& self.diagonal@.len() == 5
        &&& forall|p: int| 0 <= p < 5 ==> #[trigger] self.straight@[p] >= 1
        &&& forall|p: int| 0 <= p < 5 ==> #[trigger] self.diagonal@[p] >= 1
        &&& self.heuristic@.len() == grid.width()
        &&& forall|x: int| 0 <= x < grid.width() ==> #[trigger] self.heuristic@[x]@.len() == grid.height()
        &&& forall|x: int, y: int| grid.in_bounds(x, y) ==> #[trigger] self.heuristic@[x]@[y] >= 0
    }
}

/// Step `i` of a walk: from cell `i` a unit may step to cell `i + 1`.
pub open spec fn walk_step(grid: &MovementGrid, w: Seq<Cell>, i: int) -> bool {
    grid.can_step(w[i].x as int, w[i].y as int, w[i + 1].x as int, w[i + 1].y as int)
}

/// A sequence of cells in which each cell can be stepped to from the one
/// before it.
pub open spec fn is_walk(grid: &MovementGrid, w: Seq<Cell>) -> bool {
    &&& w.len() >= 1
    &&& forall|i: int| 0 <= i < w.len() - 1 ==> #[trigger] walk_step(grid, w, i)
}

/// A unit on `from` can reach `to` by a walk of allowed steps.
pub open spec fn reachable(grid: &MovementGrid, from: Cell, to: Cell) -> bool {
    exists|w: Seq<Cell>| is_walk(grid, w) && w[0] == from && w.last() == to
}

/// `path` is what the search hands back for a path from `start` to
/// `target`: the chain of nodes back to the start, its first node a cell
/// from which the target can be stepped to, carrying the heading of that
/// last step.
pub open spec fn is_search_path(grid: &MovementGrid, path: Seq<NodeCoords>, start: Cell, target: Cell) -> bool {
    &&& is_chain_to(grid, path, start)
    &&& grid.can_step(path[0].xy.x as int, path[0].xy.y as int, target.x as int, target.y as int)
    &&& path[0].h == Some(heading_for_offset(target.x - path[0].xy.x, target.y - path[0].xy.y))
}

/// A search path describes a walk from the start to the target.
pub proof fn lemma_search_path_reaches(grid: &MovementGrid, path: Seq<NodeCoords>, start: Cell, target: Cell)
    requires
        is_search_path(grid, path, start, target),
    ensures
        is_walk(grid, path_walk(path, target)),
        path_walk(path, target)[0] == start,
        path_walk(path, target).last() == target,
        reachable(grid, start, target),
{
    let n = path.len();
    let w = path_walk(path, target);
    assert forall|i: int| 0 <= i < w.len() - 1 implies #[trigger] walk_step(grid, w, i) by {
        if i < n - 1 {
            let k = n - 1 - i;
            assert(chain_link(grid, path, k));
            assert(w[i] == path[k].xy);
            assert(w[i + 1] == path[k - 1].xy);
        } else {
            assert(w[i] == path[0].xy);
        }
    }
    assert(is_walk(grid, w));
    assert(w[0] == path.last().xy);
    assert(w.last() == target);
    assert(is_walk(grid, w) && w[0] == start && w.last() == target);
}

/// The charge of a single step: a step that changes both coordinates costs
/// `diagonal[p]`, one that changes a single coordinate `straight[p]`, where
/// `p` is the turn penalty between the heading the unit has before the step
/// and the heading of the step; a walk of that one step costs the same.
pub proof fn lemma_step_charge(costs: &MoveCosts, h: Heading, a: Cell, b: Cell)
    ensures
        a.x != b.x && a.y != b.y ==> move_cost(costs, h, a, b) == costs.diagonal@[turn_penalty(
            h,
            heading_for_offset(b.x - a.x, b.y - a.y),
        )] as int,
        !(a.x != b.x && a.y != b.y) ==> move_cost(costs, h, a, b) == costs.straight@[turn_penalty(
            h,
            heading_for_offset(b.x - a.x, b.y - a.y),
        )] as int,
        walk_cost(costs, h, seq![a, b]) == move_cost(costs, h, a, b),
{
    lemma_walk_cost_single(costs, h, seq![a, b]);
}

/// Turning is charged from the heading the unit has: a step straight ahead
/// costs the penalty-free entry of its kind, a step back the half-turn
/// entry, and a step taken facing `h` costs the same as from any other
/// heading with the same turn penalty to the step.
pub proof fn lemma_turn_charge(costs: &MoveCosts, h: Heading, g: Heading, a: Cell, b: Cell)
    requires
        is_unit_offset(b.x - a.x, b.y - a.y),
    ensures
        h == heading_for_offset(b.x - a.x, b.y - a.y) ==> move_cost(costs, h, a, b) == (if a.x != b.x && a.y != b.y {
            costs.diagonal@[0]
        } else {
            costs.straight@[0]
        }) as int,
        h == heading_for_offset(b.x - a.x, b.y - a.y).opposite() ==> move_cost(costs, h, a, b) == (if a.x != b.x
            && a.y != b.y {
            costs.diagonal@[4]
        } else {
            costs.straight@[4]
        }) as int,
        turn_penalty(h, heading_for_offset(b.x - a.x, b.y - a.y)) == turn_penalty(
            g,
            heading_for_offset(b.x - a.x, b.y - a.y),
        ) ==> move_cost(costs, h, a, b) == move_cost(costs, g, a, b),
{
    lemma_step_charge(costs, h, a, b);
    lemma_step_charge(costs, g, a, b);
    let d = heading_for_offset(b.x - a.x, b.y - a.y);
    lemma_turn_penalty(h, d);
    lemma_turn_penalty(d, h);
    if h == d.opposite() {
        assert(turn_penalty(d, h) == 4);
    }
}

/// The estimate charged for a cell is the given `heuristic[x][y]`, once.
pub proof fn lemma_estimate_of_cell(costs: &MoveCosts, c: Cell)
    ensures
        heuristic_at(costs, c) == costs.heuristic@[c.x as int]@[c.y as int] as int,
{
}

/// The heuristic overestimates by at most `e`: from any cell of the grid,
/// facing any heading, every walk to the target costs at least the estimate
/// `heuristic[x][y]` of its first cell less `e`.
pub open spec fn heuristic_within(grid: &MovementGrid, costs: &MoveCosts, target: Cell, e: int) -> bool {
    forall|h: Heading, w: Seq<Cell>|
        is_walk(grid, w) && grid.in_bounds(w[0].x as int, w[0].y as int) && w.last() == target
            ==> costs.heuristic@[w[0].x as int]@[w[0].y as int] <= #[trigger] walk_cost(costs, h, w) + e
}

/// The heuristic never overestimates.
pub open spec fn heuristic_admissible(grid: &MovementGrid, costs: &MoveCosts, target: Cell) -> bool {
    heuristic_within(grid, costs, target, 0)
}

/// The heading of a unit on cell `i` of a walk that starts facing north.
pub open spec fn walk_heading(w: Seq<Cell>, i: int) -> Heading {
    if i == 0 {
        Heading::N
    } else {
        heading_for_offset(w[i].x - w[i - 1].x, w[i].y - w[i - 1].y)
    }
}

/// The search state of a unit on cell `i` of a walk that starts facing north.
pub open spec fn walk_state(w: Seq<Cell>, i: int) -> SearchState {
    SearchState { x: w[i].x, y: w[i].y, h: walk_heading(w, i) }
}

/// The cost of the rest of a walk from its cell `i` on.
pub open spec fn suffix_cost(costs: &MoveCosts, w: Seq<Cell>, i: int) -> int {
    walk_cost(costs, walk_heading(w, i), w.skip(i))
}

proof fn lemma_walk_skip(grid: &MovementGrid, w: Seq<Cell>, j: int)
    requires
        is_walk(grid, w),
        0 <= j < w.len(),
    ensures
        is_walk(grid, w.skip(j)),
        w.skip(j)[0] == w[j],
        w.skip(j).last() == w.last(),
{
    let v = w.skip(j);
    assert forall|i: int| 0 <= i < v.len() - 1 implies #[trigger] walk_step(grid, v, i) by {
        assert(walk_step(grid, w, i + j));
        assert(v[i] == w[i + j]);
        assert(v[i + 1] == w[i + j + 1]);
    }
}

/// Along a walk from the start, either some state up to cell `i` is open
/// with a cost that, added to the rest of the walk, stays within the cost of
/// the walk, or the state on cell `i` is visited with such a cost.
proof fn lemma_walk_frontier(
    grid: &MovementGrid,
    costs: &MoveCosts,
    nodes: Seq<AStarNode>,
    open: Seq<SearchState>,
    start: Cell,
    target: Cell,
    w: Seq<Cell>,
    i: int,
)
    requires
        grid.well_formed(),
        grid.in_bounds(start.x as int, start.y as int),
        parents_ok(grid, costs, nodes, start, target),
        closed_expanded(grid, costs, nodes, open, None),
        is_walk(grid, w),
        w[0] == start,
        0 <= i < w.len(),
    ensures
        (exists|j: int|
            0 <= j <= i && open.contains(walk_state(w, j)) && node_at(nodes, walk_state(w, j), grid.height()).g_score
                + suffix_cost(costs, w, j) <= walk_cost(costs, Heading::N, w)) || {
            &&& valid_state(grid, walk_state(w, i))
            &&& is_visited(nodes, walk_state(w, i), grid.height())
            &&& node_at(nodes, walk_state(w, i), grid.height()).g_score + suffix_cost(costs, w, i)
                <= walk_cost(costs, Heading::N, w)
        },
    decreases i,
{
    let hh = grid.height();
    lemma_parent(grid, costs, nodes, start, target, start_state(start));
    if i == 0 {
        assert(w.skip(0) =~= w);
        assert(walk_state(w, 0) == start_state(start));
    } else {
        lemma_walk_frontier(grid, costs, nodes, open, start, target, w, i - 1);
        let s1 = walk_state(w, i - 1);
        if exists|j: int|
            0 <= j <= i - 1 && open.contains(walk_state(w, j)) && node_at(nodes, walk_state(w, j), hh).g_score
                + suffix_cost(costs, w, j) <= walk_cost(costs, Heading::N, w) {
            let j = choose|j: int|
                0 <= j <= i - 1 && open.contains(walk_state(w, j)) && node_at(nodes, walk_state(w, j), hh).g_score
                    + suffix_cost(costs, w, j) <= walk_cost(costs, Heading::N, w);
            assert(0 <= j <= i);
        } else if open.contains(s1) {
            assert(0 <= i - 1 <= i);
        } else {
            assert(expanded(grid, costs, nodes, s1));
            let dx = w[i].x - w[i - 1].x;
            let dy = w[i].y - w[i - 1].y;
            assert(walk_step(grid, w, i - 1));
            assert(grid.can_step(s1.x as int, s1.y as int, s1.x + dx, s1.y + dy));
            assert(succ(s1, dx, dy) == walk_state(w, i));
            let v = w.skip(i - 1);
            assert(v[0] == w[i - 1]);
            assert(v[1] == w[i]);
            assert(v.drop_first() =~= w.skip(i));
            assert(state_cell(s1) == w[i - 1]);
            assert(state_cell(walk_state(w, i)) == w[i]);
        }
    }
}

/// When the open list holds no state on the start, every walk from the
/// start to the target passes an open state whose cost and the rest of the
/// walk stay within the cost of the walk.
proof fn lemma_walk_open(
    grid: &MovementGrid,
    costs: &MoveCosts,
    nodes: Seq<AStarNode>,
    open: Seq<SearchState>,
    start: Cell,
    target: Cell,
    w: Seq<Cell>,
)
    requires
        grid.well_formed(),
        grid.in_bounds(start.x as int, start.y as int),
        parents_ok(grid, costs, nodes, start, target),
        closed_expanded(grid, costs, nodes, open, None),
        forall|s: SearchState| #[trigger] waits(grid, nodes, open, target, s),
        is_walk(grid, w),
        w[0] == start,
        w.last() == target,
    ensures
        exists|j: int|
            0 <= j < w.len() && open.contains(walk_state(w, j)) && node_at(nodes, walk_state(w, j), grid.height()).g_score
                + suffix_cost(costs, w, j) <= walk_cost(costs, Heading::N, w),
{
    let n = w.len() - 1;
    lemma_walk_frontier(grid, costs, nodes, open, start, target, w, n);
    if !(exists|j: int|
        0 <= j <= n && open.contains(walk_state(w, j)) && node_at(nodes, walk_state(w, j), grid.height()).g_score
            + suffix_cost(costs, w, j) <= walk_cost(costs, Heading::N, w)) {
        assert(waits(grid, nodes, open, target, walk_state(w, n)));
        assert(open.contains(walk_state(w, n)));
    }
}

/// When the open state `open[k]` on the target cell has the lowest
/// estimate of the open list and the heuristic overestimates by at most
/// `e`, its cost is at most that of any walk from the start to the target
/// plus `e`.
proof fn lemma_optimal(
    grid: &MovementGrid,
    costs: &MoveCosts,
    nodes: Seq<AStarNode>,
    open: Seq<SearchState>,
    start: Cell,
    target: Cell,
    k: int,
    w: Seq<Cell>,
    e: int,
)
    requires
        grid.well_formed(),
        costs.fits(grid),
        grid.in_bounds(start.x as int, start.y as int),
        start != target,
        table_ok(grid, costs, nodes, open, start, target),
        closed_expanded(grid, costs, nodes, open, None),
        0 <= k < open.len(),
        open[k].x == target.x && open[k].y == target.y,
        forall|j: int|
            0 <= j < open.len() ==> node_at(nodes, open[k], grid.height()).f_score <= #[trigger] node_at(
                nodes,
                open[j],
                grid.height(),
            ).f_score,
        heuristic_within(grid, costs, target, e),
        is_walk(grid, w),
        w[0] == start,
        w.last() == target,
    ensures
        node_at(nodes, open[k], grid.height()).g_score <= walk_cost(costs, Heading::N, w) + e,
{
    let hh = grid.height();
    lemma_walk_open(grid, costs, nodes, open, start, target, w);
    let j = choose|j: int|
        0 <= j < w.len() && open.contains(walk_state(w, j)) && node_at(nodes, walk_state(w, j), hh).g_score
            + suffix_cost(costs, w, j) <= walk_cost(costs, Heading::N, w);
    let sj = walk_state(w, j);
    let m = choose|m: int| 0 <= m < open.len() && open[m] == sj;
    assert(open_entry_ok(grid, nodes, open[m]));
    assert(node_at(nodes, open[k], hh).f_score <= node_at(nodes, open[m], hh).f_score);
    lemma_walk_skip(grid, w, j);
    let v = w.skip(j);
    assert(is_walk(grid, v) && grid.in_bounds(v[0].x as int, v[0].y as int) && v.last() == target);
    assert(heuristic_at(costs, v[0]) <= walk_cost(costs, walk_heading(w, j), v) + e);
    assert(state_cell(sj) == v[0]);
    assert(heuristic_at(costs, state_cell(sj)) >= 0);
    lemma_parent(grid, costs, nodes, start, target, sj);
    let cur = open[k];
    assert(open_entry_ok(grid, nodes, open[k]));
    lemma_parent(grid, costs, nodes, start, target, cur);
    assert(cur != start_state(start));
    assert(has_parent(grid, costs, nodes, hh, target, cur));
    assert(heuristic_at(costs, state_cell(cur)) >= 0);
}

/// The state reached from `s` by the step `(dx, dy)`.
pub open spec fn succ(s: SearchState, dx: int, dy: int) -> SearchState {
    SearchState { x: (s.x + dx) as u32, y: (s.y + dy) as u32, h: heading_for_offset(dx, dy) }
}

/// Every state reached from `s` by an allowed step is visited, with a cost
/// at most that of `s` plus the cost of the step.
pub open spec fn expanded(grid: &MovementGrid, costs: &MoveCosts, nodes: Seq<AStarNode>, s: SearchState) -> bool {
    forall|dx: int, dy: int|
        #![trigger grid.can_step(s.x as int, s.y as int, s.x + dx, s.y + dy)]
        grid.can_step(s.x as int, s.y as int, s.x + dx, s.y + dy) ==> {
            &&& is_visited(nodes, succ(s, dx, dy), grid.height())
            &&& node_at(nodes, succ(s, dx, dy), grid.height()).g_score
                <= node_at(nodes, s, grid.height()).g_score + move_cost(costs, s.h, state_cell(s), state_cell(succ(s, dx, dy)))
        }
}

/// Some state on cell `c` is visited.
pub open spec fn cell_visited(grid: &MovementGrid, nodes: Seq<AStarNode>, c: Cell) -> bool {
    exists|h: Heading| #[trigger] is_visited(nodes, SearchState { x: c.x, y: c.y, h: h }, grid.height())
}

/// When every visited state is expanded, every cell of a walk from a cell
/// with a visited state has a visited state.
proof fn lemma_walk_visited(grid: &MovementGrid, costs: &MoveCosts, nodes: Seq<AStarNode>, w: Seq<Cell>, i: int)
    requires
        is_walk(grid, w),
        grid.in_bounds(w[0].x as int, w[0].y as int),
        cell_visited(grid, nodes, w[0]),
        forall|s: SearchState|
            #![trigger expanded(grid, costs, nodes, s)]
            valid_state(grid, s) && is_visited(nodes, s, grid.height()) ==> expanded(grid, costs, nodes, s),
        0 <= i < w.len(),
    ensures
        cell_visited(grid, nodes, w[i]),
        grid.in_bounds(w[i].x as int, w[i].y as int),
    decreases i,
{
    if i > 0 {
        lemma_walk_visited(grid, costs, nodes, w, i - 1);
        let c = w[i - 1];
        let h = choose|h: Heading| #[trigger] is_visited(nodes, SearchState { x: c.x, y: c.y, h: h }, grid.height());
        let s = SearchState { x: c.x, y: c.y, h: h };
        assert(walk_step(grid, w, i - 1));
        assert(expanded(grid, costs, nodes, s));
        let dx = w[i].x - c.x;
        let dy = w[i].y - c.y;
        assert(grid.can_step(s.x as int, s.y as int, s.x + dx, s.y + dy));
        let t = succ(s, dx, dy);
        assert(t.x == w[i].x && t.y == w[i].y);
        assert(is_visited(nodes, SearchState { x: w[i].x, y: w[i].y, h: t.h }, grid.height()));
    }
}

pub open spec fn visit_weight(n: AStarNode) -> int {
    if n.g_score >= 0 { 1 } else { 0 }
}

pub open spec fn cost_weight(n: AStarNode) -> int {
    if n.g_score >= 0 { n.g_score as int } else { 0 }
}

/// Number of visited records.
pub open spec fn count_visited(nodes: Seq<AStarNode>) -> int
    decreases nodes.len(),
{
    if nodes.len() == 0 { 0 } else { count_visited(nodes.drop_last()) + visit_weight(nodes.last()) }
}

/// Sum of the costs of the visited records.
pub open spec fn total_cost(nodes: Seq<AStarNode>) -> int
    decreases nodes.len(),
{
    if nodes.len() == 0 { 0 } else { total_cost(nodes.drop_last()) + cost_weight(nodes.last()) }
}

proof fn lemma_weights_update(nodes: Seq<AStarNode>, i: int, v: AStarNode)
    requires
        0 <= i < nodes.len(),
    ensures
        count_visited(nodes.update(i, v)) == count_visited(nodes) - visit_weight(nodes[i]) + visit_weight(v),
        total_cost(nodes.update(i, v)) == total_cost(nodes) - cost_weight(nodes[i]) + cost_weight(v),
    decreases nodes.len(),
{
    let u = nodes.update(i, v);
    if i == nodes.len() - 1 {
        assert(u.drop_last() =~= nodes.drop_last());
    } else {
        lemma_weights_update(nodes.drop_last(), i, v);
        assert(u.drop_last() =~= nodes.drop_last().update(i, v));
    }
}

proof fn lemma_weights_bounds(nodes: Seq<AStarNode>)
    ensures
        0 <= count_visited(nodes) <= nodes.len(),
        total_cost(nodes) >= 0,
    decreases nodes.len(),
{
    if nodes.len() > 0 {
        lemma_weights_bounds(nodes.drop_last());
    }
}

proof fn lemma_weights_unvisited(nodes: Seq<AStarNode>)
    requires
        forall|i: int| 0 <= i < nodes.len() ==> #[trigger] nodes[i].g_score == -1,
    ensures
        count_visited(nodes) == 0,
    decreases nodes.len(),
{
    if nodes.len() > 0 {
        lemma_weights_unvisited(nodes.drop_last());
    }
}


/// Largest step cost the search accepts.
pub open spec fn step_max() -> int {
    0x7fff_ffff
}

/// A search record is in range: its cost is -1 (unvisited) or at most
/// `count - 1` maximal steps, and its estimate is never 0.
pub open spec fn score_ok(n: AStarNode, count: int) -> bool {
    &&& n.g_score >= -1
    &&& n.f_score != 0
    &&& n.g_score >= 0 ==> n.g_score <= (count - 1) * step_max()
}

/// An entry of the open list names a visited state of the grid.
pub open spec fn open_entry_ok(grid: &MovementGrid, nodes: Seq<AStarNode>, s: SearchState) -> bool {
    valid_state(grid, s) && is_visited(nodes, s, grid.height())
}

/// A visited state on the target cell waits in the open list.
pub open spec fn waits(grid: &MovementGrid, nodes: Seq<AStarNode>, open: Seq<SearchState>, target: Cell, s: SearchState) -> bool {
    (valid_state(grid, s) && is_visited(nodes, s, grid.height()) && s.x == target.x && s.y == target.y)
        ==> open.contains(s)
}

/// What holds of the search table and the open list between two rounds of
/// the search, apart from the expansion of closed states.
pub open spec fn table_ok(
    grid: &MovementGrid,
    costs: &MoveCosts,
    nodes: Seq<AStarNode>,
    open: Seq<SearchState>,
    start: Cell,
    target: Cell,
) -> bool {
    &&& parents_ok(grid, costs, nodes, start, target)
    &&& forall|i: int| 0 <= i < nodes.len() ==> #[trigger] score_ok(nodes[i], count_visited(nodes))
    &&& 1 <= count_visited(nodes) <= nodes.len()
    &&& total_cost(nodes) >= 0
    &&& forall|k: int| 0 <= k < open.len() ==> #[trigger] open_entry_ok(grid, nodes, open[k])
    &&& open.no_duplicates()
    &&& forall|s: SearchState| #[trigger] waits(grid, nodes, open, target, s)
}

/// Every visited state that is not open (and is not `skip`) is expanded.
pub open spec fn closed_expanded(grid: &MovementGrid, costs: &MoveCosts, nodes: Seq<AStarNode>, open: Seq<SearchState>, skip: Option<SearchState>) -> bool {
    forall|s: SearchState|
        #![trigger expanded(grid, costs, nodes, s)]
        valid_state(grid, s) && is_visited(nodes, s, grid.height()) && !open.contains(s) && skip != Some(s)
            ==> expanded(grid, costs, nodes, s)
}

/// Updating the record of `t` with a lower cost reached from `cur` keeps the
/// parent links in order.
proof fn lemma_update_parents(
    grid: &MovementGrid,
    costs: &MoveCosts,
    nodes: Seq<AStarNode>,
    start: Cell,
    target: Cell,
    cur: SearchState,
    t: SearchState,
    v: AStarNode,
)
    requires
        grid.well_formed(),
        parents_ok(grid, costs, nodes, start, target),
        grid.in_bounds(start.x as int, start.y as int),
        valid_state(grid, cur),
        valid_state(grid, t),
        is_visited(nodes, cur, grid.height()),
        cur != t,
        v.came_from == Some(cur),
        v.g_score > node_at(nodes, cur, grid.height()).g_score,
        is_visited(nodes, t, grid.height()) ==> v.g_score < node_at(nodes, t, grid.height()).g_score,
        grid.can_step(cur.x as int, cur.y as int, t.x as int, t.y as int),
        t.h == heading_for_offset(t.x - cur.x, t.y - cur.y),
        v.g_score >= node_at(nodes, cur, grid.height()).g_score + move_cost(costs, cur.h, state_cell(cur), state_cell(t)),
        v.f_score == v.g_score + heuristic_at(costs, state_cell(t)),
        !(cur.x == target.x && cur.y == target.y),
    ensures
        parents_ok(grid, costs, nodes.update(state_index(t, grid.height()), v), start, target),
{
    reveal(parents_ok);
    let hh = grid.height();
    let ti = state_index(t, hh);
    let ns = nodes.update(ti, v);
    lemma_index_bounds(t, grid.width(), hh);
    lemma_index_distinct(grid, cur, t);
    let st = start_state(start);
    if t == st {
        assert(node_at(nodes, st, hh).g_score == 0);
        assert(false);
    }
    lemma_index_distinct(grid, st, t);
    lemma_index_bounds(st, grid.width(), hh);
    lemma_index_bounds(cur, grid.width(), hh);
    assert(node_at(ns, st, hh) == node_at(nodes, st, hh));
    assert forall|s: SearchState|
        valid_state(grid, s) && is_visited(ns, s, hh) && s != st implies #[trigger] has_parent(grid, costs, ns, hh, target, s) by {
        if s == t {
            assert(node_at(ns, cur, hh) == node_at(nodes, cur, hh));
        } else {
            lemma_index_distinct(grid, s, t);
            lemma_index_bounds(s, grid.width(), hh);
            assert(node_at(ns, s, hh) == node_at(nodes, s, hh));
            assert(has_parent(grid, costs, nodes, hh, target, s));
            let p = node_at(nodes, s, hh).came_from.unwrap();
            if p != t {
                lemma_index_distinct(grid, p, t);
                lemma_index_bounds(p, grid.width(), hh);
                assert(node_at(ns, p, hh) == node_at(nodes, p, hh));
            }
        }
    }
}

/// Position in `open` of a state with the lowest estimate: scanning in
/// order, the first state is taken, then each one whose estimate is lower
/// than that of the state taken so far.
fn select_lowest(nodes: &Vec<AStarNode>, open: &Vec<SearchState>, height: usize, Ghost(grid): Ghost<&MovementGrid>) -> (k: usize)
    requires
        open@.len() > 0,
        height == grid.height(),
        nodes@.len() == state_count(grid),
        state_count(grid) <= usize::MAX,
        forall|j: int| 0 <= j < open@.len() ==> #[trigger] valid_state(grid, open@[j]),
        forall|i: int| 0 <= i < nodes@.len() ==> #[trigger] nodes@[i].f_score != 0,
    ensures
        k < open@.len(),
        forall|j: int|
            0 <= j < open@.len() ==> node_at(nodes@, open@[k as int], height as int).f_score <= #[trigger] node_at(
                nodes@,
                open@[j],
                height as int,
            ).f_score,
{
    let ghost width = grid.width();
    let mut best: usize = 0;
    let mut current_cost: i64 = 0;
    let mut i: usize = 0;
    while i < open.len()
        invariant
            0 <= i <= open@.len(),
            height == grid.height(),
            width == grid.width(),
            nodes@.len() == state_count(grid),
            state_count(grid) <= usize::MAX,
            forall|j: int| 0 <= j < open@.len() ==> #[trigger] valid_state(grid, open@[j]),
            forall|i: int| 0 <= i < nodes@.len() ==> #[trigger] nodes@[i].f_score != 0,
            i == 0 ==> current_cost == 0 && best == 0,
            i > 0 ==> best < i && current_cost == node_at(nodes@, open@[best as int], height as int).f_score
                && current_cost != 0,
            forall|j: int| 0 <= j < i ==> current_cost <= #[trigger] node_at(nodes@, open@[j], height as int).f_score,
        decreases open@.len() - i,
    {
        assert(valid_state(grid, open@[i as int]));
        let idx = index_of(&open[i], height, Ghost(width));
        let cell_f_score: i64 = nodes[idx].f_score;
        assert(nodes@[idx as int].f_score != 0);
        if current_cost == 0 || cell_f_score < current_cost {
            best = i;
            current_cost = cell_f_score;
        }
        i = i + 1;
    }
    best
}

/// Whether `s` is in `list`.
fn contains_state(list: &Vec<SearchState>, s: &SearchState) -> (found: bool)
    ensures
        found == list@.contains(*s),
{
    let mut i: usize = 0;
    while i < list.len()
        invariant
            0 <= i <= list@.len(),
            forall|j: int| 0 <= j < i ==> list@[j] != *s,
        decreases list@.len() - i,
    {
        let e = list[i];
        if e.x == s.x && e.y == s.y && e.h == s.h {
            assert(list@[i as int] == *s);
            return true;
        }
        i = i + 1;
    }
    false
}


/// The search state of a node (a node without heading faces north).
pub open spec fn node_state(n: NodeCoords) -> SearchState {
    SearchState { x: n.xy.x, y: n.xy.y, h: heading_or_north(n.h) }
}

pub open spec fn state_cell(s: SearchState) -> Cell {
    Cell { x: s.x, y: s.y }
}

/// Relaxes the step from `current`, whose cost is `current_g`, to its
/// neighbour `neighbour`: when the step gives the neighbour a lower cost
/// than it has, or it is unvisited, its record takes the new cost, its
/// estimate and `current` as parent, and it joins the open list.
fn relax_neighbour(
    nodes: &mut Vec<AStarNode>,
    open: &mut Vec<SearchState>,
    current: SearchState,
    current_g: i64,
    neighbour: NodeCoords,
    costs: &MoveCosts,
    gridmap: &MovementGrid,
    height: usize,
    Ghost(start): Ghost<Cell>,
    Ghost(target): Ghost<Cell>,
)
    requires
        gridmap.well_formed(),
        costs.fits(gridmap),
        state_count(gridmap) <= u32::MAX,
        height == gridmap.height(),
        gridmap.in_bounds(start.x as int, start.y as int),
        table_ok(gridmap, costs, old(nodes)@, old(open)@, start, target),
        closed_expanded(gridmap, costs, old(nodes)@, old(open)@, Some(current)),
        valid_state(gridmap, current),
        is_visited(old(nodes)@, current, height as int),
        !old(open)@.contains(current),
        node_at(old(nodes)@, current, height as int).g_score == current_g,
        is_step_node(gridmap, state_cell(current), neighbour),
        !(current.x == target.x && current.y == target.y),
    ensures
        table_ok(gridmap, costs, final(nodes)@, final(open)@, start, target),
        closed_expanded(gridmap, costs, final(nodes)@, final(open)@, Some(current)),
        node_at(final(nodes)@, current, height as int) == node_at(old(nodes)@, current, height as int),
        !final(open)@.contains(current),
        is_visited(final(nodes)@, node_state(neighbour), height as int),
        node_at(final(nodes)@, node_state(neighbour), height as int).g_score <= current_g + move_cost(
            costs,
            current.h,
            state_cell(current),
            neighbour.xy,
        ),
        forall|u: SearchState|
            valid_state(gridmap, u) && #[trigger] is_visited(old(nodes)@, u, height as int) ==> is_visited(final(nodes)@, u, height as int)
                && node_at(final(nodes)@, u, height as int).g_score <= node_at(old(nodes)@, u, height as int).g_score,
        count_visited(final(nodes)@) >= count_visited(old(nodes)@),
        count_visited(final(nodes)@) == count_visited(old(nodes)@) ==> total_cost(final(nodes)@) <= total_cost(old(nodes)@),
        count_visited(final(nodes)@) > count_visited(old(nodes)@) || total_cost(final(nodes)@) < total_cost(old(nodes)@)
            || final(open)@ == old(open)@,
{
    let ghost hh = height as int;
    let ghost width = gridmap.width();
    let ghost ns0 = nodes@;
    let ghost op0 = open@;
    let ghost cnt0 = count_visited(ns0);
    proof {
        lemma_parent(gridmap, costs, ns0, start, target, current);
        lemma_weights_bounds(ns0);
    }
    let neighbour_heading = match neighbour.h {
        Some(h) => h,
        None => Heading::N,
    };
    let t = SearchState { x: neighbour.xy.x, y: neighbour.xy.y, h: neighbour_heading };
    assert(t == node_state(neighbour));
    let ti = index_of(&t, height, Ghost(width));
    let current_coords = NodeCoords { xy: Cell { x: current.x, y: current.y }, h: Some(current.h) };
    let penalty = calculate_base_inertia(&current_coords, &neighbour);
    let step: i32 = if current.x != t.x && current.y != t.y {
        costs.diagonal[penalty as usize]
    } else {
        costs.straight[penalty as usize]
    };
    assert(state_cell(t) == neighbour.xy);
    assert(step as int == move_cost(costs, current.h, state_cell(current), state_cell(t)));
    proof { lemma_index_bounds(current, width, hh); }
    let ci = index_of(&current, height, Ghost(width));
    assert(score_ok(ns0[ci as int], cnt0));
    assert(current_g <= (cnt0 - 1) * step_max());
    let tentative_g_score: i64 = current_g + step as i64;
    let neighbour_node = nodes[ti];
    assert(score_ok(ns0[ti as int], cnt0));
    proof {
        lemma_index_distinct(gridmap, current, t);
    }
    if tentative_g_score < neighbour_node.g_score || neighbour_node.g_score == -1 {
        let h: i32 = costs.heuristic[t.x as usize][t.y as usize];
        let f_score: i64 = tentative_g_score + h as i64;
        let new_node = AStarNode { f_score: f_score, g_score: tentative_g_score, came_from: Some(current) };
        nodes.set(ti, new_node);
        let ghost ns1 = nodes@;
        proof {
            lemma_update_parents(gridmap, costs, ns0, start, target, current, t, new_node);
            lemma_weights_update(ns0, ti as int, new_node);
            lemma_weights_bounds(ns1);
            assert(ns1 == ns0.update(state_index(t, hh), new_node));
        }
        let ghost cnt1 = count_visited(ns1);
        assert forall|u: SearchState| valid_state(gridmap, u) && #[trigger] is_visited(ns0, u, hh) implies is_visited(ns1, u, hh)
            && node_at(ns1, u, hh).g_score <= node_at(ns0, u, hh).g_score by {
            lemma_index_bounds(u, width, hh);
            if state_index(u, hh) != ti as int {
                assert(ns1[state_index(u, hh)] == ns0[state_index(u, hh)]);
            }
        }
        assert forall|i: int| 0 <= i < ns1.len() implies #[trigger] score_ok(ns1[i], cnt1) by {
            if i != ti as int {
                assert(score_ok(ns0[i], cnt0));
            }
        }
        if !contains_state(open, &t) {
            open.push(t);
        }
        let ghost op1 = open@;
        assert(op1.contains(t)) by {
            if op0.contains(t) {
                let k = choose|k: int| 0 <= k < op0.len() && op0[k] == t;
                assert(op1[k] == t);
            } else {
                assert(op1[op1.len() - 1] == t);
            }
        }
        assert forall|s: SearchState| op0.contains(s) implies op1.contains(s) by {
            let k = choose|k: int| 0 <= k < op0.len() && op0[k] == s;
            assert(op1[k] == s);
        }
        assert forall|s: SearchState| op1.contains(s) && s != t implies op0.contains(s) by {
            let k = choose|k: int| 0 <= k < op1.len() && op1[k] == s;
            if k < op0.len() {
                assert(op0[k] == s);
            }
        }
        assert forall|k: int| 0 <= k < op1.len() implies #[trigger] open_entry_ok(gridmap, ns1, op1[k]) by {
            if k < op0.len() {
                assert(open_entry_ok(gridmap, ns0, op0[k]));
                assert(op1[k] == op0[k]);
                assert(is_visited(ns0, op0[k], hh));
            }
        }
        assert forall|s: SearchState| #[trigger] waits(gridmap, ns1, op1, target, s) by {
            if s != t {
                assert(waits(gridmap, ns0, op0, target, s));
                if valid_state(gridmap, s) {
                    lemma_index_distinct(gridmap, s, t);
                    lemma_index_bounds(s, width, hh);
                    assert(ns1[state_index(s, hh)] == ns0[state_index(s, hh)]);
                }
            }
        }
        assert forall|s: SearchState|
            valid_state(gridmap, s) && is_visited(ns1, s, hh) && !op1.contains(s) && Some(current) != Some(s)
            implies #[trigger] expanded(gridmap, costs, ns1, s) by {
            assert(s != t);
            lemma_index_distinct(gridmap, s, t);
            lemma_index_bounds(s, width, hh);
            assert(ns1[state_index(s, hh)] == ns0[state_index(s, hh)]);
            assert(!op0.contains(s));
            assert(expanded(gridmap, costs, ns0, s));
            assert forall|dx: int, dy: int|
                #[trigger] gridmap.can_step(s.x as int, s.y as int, s.x + dx, s.y + dy)
                implies is_visited(ns1, succ(s, dx, dy), hh) && node_at(ns1, succ(s, dx, dy), hh).g_score
                <= node_at(ns1, s, hh).g_score + move_cost(costs, s.h, state_cell(s), state_cell(succ(s, dx, dy))) by {
                assert(valid_state(gridmap, succ(s, dx, dy)));
                assert(is_visited(ns0, succ(s, dx, dy), hh));
                assert(is_visited(ns1, succ(s, dx, dy), hh));
            }
        }
        assert(op1.no_duplicates());
        assert(!op1.contains(current));
        assert(ns1[ci as int] == ns0[ci as int]);
        assert(table_ok(gridmap, costs, ns1, op1, start, target));
    } else {
        assert(is_visited(ns0, t, hh));
    }
}


pub open spec fn unvisited_node() -> AStarNode {
    AStarNode { f_score: -1i64, g_score: -1i64, came_from: None }
}

/// The table in which only the start is visited, with cost 0, and the open
/// list that holds only the start, meet the search invariants.
proof fn lemma_initial_table(grid: &MovementGrid, costs: &MoveCosts, fill: Seq<AStarNode>, start: Cell, target: Cell)
    requires
        grid.well_formed(),
        grid.in_bounds(start.x as int, start.y as int),
        start != target,
        fill.len() == state_count(grid),
        forall|i: int| 0 <= i < fill.len() ==> fill[i] == unvisited_node(),
    ensures
        ({
            let ns = fill.update(
                state_index(start_state(start), grid.height()),
                AStarNode { f_score: -1i64, g_score: 0i64, came_from: None },
            );
            &&& table_ok(grid, costs, ns, seq![start_state(start)], start, target)
            &&& closed_expanded(grid, costs, ns, seq![start_state(start)], None)
        }),
{
    let hh = grid.height();
    let st = start_state(start);
    let si = state_index(st, hh);
    let rec = AStarNode { f_score: -1i64, g_score: 0i64, came_from: None };
    let ns = fill.update(si, rec);
    let open = seq![st];
    lemma_index_bounds(st, grid.width(), hh);
    lemma_weights_unvisited(fill);
    lemma_weights_update(fill, si, rec);
    lemma_weights_bounds(ns);
    assert(count_visited(ns) == 1);
    assert forall|s: SearchState| valid_state(grid, s) && is_visited(ns, s, hh) implies s == st by {
        lemma_index_bounds(s, grid.width(), hh);
        if s != st {
            lemma_index_distinct(grid, s, st);
        }
    }
    assert(parents_ok(grid, costs, ns, start, target)) by {
        reveal(parents_ok);
    }
    assert forall|i: int| 0 <= i < ns.len() implies #[trigger] score_ok(ns[i], count_visited(ns)) by {
        if i != si {
            assert(ns[i] == fill[i]);
        }
    }
    assert(open.contains(st)) by {
        assert(open[0] == st);
    }
    assert forall|s: SearchState| #[trigger] waits(grid, ns, open, target, s) by {
        if valid_state(grid, s) && is_visited(ns, s, hh) {
            assert(s == st);
        }
    }
    assert(open.no_duplicates());
    assert forall|k: int| 0 <= k < open.len() implies #[trigger] open_entry_ok(grid, ns, open[k]) by {
        assert(open[k] == st);
    }
}

/// Finds a path for a unit from the cell `start` to the cell `target` with
/// an A* search over cells and headings; the unit starts facing north.
///
/// States are expanded in order of lowest estimate `f = g + heuristic`,
/// where `g` adds up the step costs of `costs` along the way; a state's
/// cost is lowered whenever a cheaper way to it is found. The search stops
/// when a state on the target cell is taken up, and the path found is given
/// as `reconstruct_path` lists it from that state; when every reachable
/// state has been expanded without reaching the target it gives `None`.
#[verifier::rlimit(40)]
pub fn calculate_a_star(gridmap: &MovementGrid, costs: &MoveCosts, start: Cell, target: Cell) -> (path: Option<
    Vec<NodeCoords>,
>)
    requires
        gridmap.well_formed(),
        costs.fits(gridmap),
        state_count(gridmap) <= u32::MAX,
        gridmap.in_bounds(start.x as int, start.y as int),
        start != target,
    ensures
        path is Some <==> reachable(gridmap, start, target),
        match path {
            Some(p) => {
                &&& is_search_path(gridmap, p@, start, target)
                &&& forall|i: int| 0 <= i < p@.len() ==> !((#[trigger] p@[i]).xy.x == target.x && p@[i].xy.y == target.y)
                &&& forall|e: int, w: Seq<Cell>|
                    #![trigger heuristic_within(gridmap, costs, target, e), walk_cost(costs, Heading::N, w)]
                    heuristic_within(gridmap, costs, target, e) && is_walk(gridmap, w) && w[0] == start && w.last()
                        == target ==> walk_cost(costs, Heading::N, path_walk(p@, target)) <= walk_cost(
                        costs,
                        Heading::N,
                        w,
                    ) + e
                &&& heuristic_admissible(gridmap, costs, target) ==> forall|w: Seq<Cell>|
                    is_walk(gridmap, w) && w[0] == start && w.last() == target
                        ==> walk_cost(costs, Heading::N, path_walk(p@, target)) <= #[trigger] walk_cost(costs, Heading::N, w)
            },
            None => true,
        },
{
    let width: usize = gridmap.grid.len();
    let height: usize = gridmap.grid[0].len();
    let ghost hh = height as int;
    let ghost n = state_count(gridmap);
    assert(width * height <= width * height * 8) by (nonlinear_arith)
        requires width * height >= 0;
    let total: usize = width * height * 8;
    let mut nodes: Vec<AStarNode> = Vec::new();
    let mut i: usize = 0;
    while i < total
        invariant
            0 <= i <= total,
            nodes@.len() == i,
            forall|j: int| 0 <= j < i ==> nodes@[j] == unvisited_node(),
        decreases total - i,
    {
        nodes.push(AStarNode { f_score: -1, g_score: -1, came_from: None });
        i = i + 1;
    }
    let start_node = SearchState { x: start.x, y: start.y, h: Heading::N };
    let si = index_of(&start_node, height, Ghost(width as int));
    let ghost fill = nodes@;
    nodes.set(si, AStarNode { f_score: -1, g_score: 0, came_from: None });
    let mut open: Vec<SearchState> = Vec::new();
    open.push(start_node);
    proof {
        lemma_initial_table(gridmap, costs, fill, start, target);
        assert(open@ == seq![start_state(start)]);
    }
    while open.len() > 0
        invariant
            gridmap.well_formed(),
            costs.fits(gridmap),
            state_count(gridmap) <= u32::MAX,
            height == gridmap.height(),
            hh == height,
            width == gridmap.width(),
            n == state_count(gridmap),
            gridmap.in_bounds(start.x as int, start.y as int),
            start != target,
            table_ok(gridmap, costs, nodes@, open@, start, target),
            closed_expanded(gridmap, costs, nodes@, open@, None),
        decreases n - count_visited(nodes@), total_cost(nodes@), open@.len(),
    {
        let ghost c0 = count_visited(nodes@);
        let ghost s0 = total_cost(nodes@);
        let ghost l0 = open@.len();
        proof {
            lemma_parent(gridmap, costs, nodes@, start, target, start_state(start));
            assert forall|j: int| 0 <= j < open@.len() implies #[trigger] valid_state(gridmap, open@[j]) by {
                assert(open_entry_ok(gridmap, nodes@, open@[j]));
            }
            assert forall|i: int| 0 <= i < nodes@.len() implies #[trigger] nodes@[i].f_score != 0 by {
                assert(score_ok(nodes@[i], count_visited(nodes@)));
            }
        }
        let k = select_lowest(&nodes, &open, height, Ghost(gridmap));
        let current = open[k];
        assert(open_entry_ok(gridmap, nodes@, open@[k as int]));
        let ci = index_of(&current, height, Ghost(width as int));
        let current_node = nodes[ci];
        if current.x == target.x && current.y == target.y {
            assert(current != start_state(start));
            proof {
                lemma_parent(gridmap, costs, nodes@, start, target, current);
                lemma_chain_ends(gridmap, costs, nodes@, start, target, current, current_node.g_score as nat);
            }
            let total_path = reconstruct_path(&nodes, current, gridmap, height);
            proof {
                lemma_reconstructed_chain(gridmap, costs, nodes@, start, target, current, total_path@);
                assert(state_cell(current) == target);
                lemma_search_path_reaches(gridmap, total_path@, start, target);
                assert forall|e: int, w: Seq<Cell>|
                    heuristic_within(gridmap, costs, target, e) && is_walk(gridmap, w) && w[0] == start && w.last()
                        == target implies #[trigger] walk_cost(costs, Heading::N, path_walk(total_path@, target))
                    <= walk_cost(costs, Heading::N, w) + e by {
                    lemma_optimal(gridmap, costs, nodes@, open@, start, target, k as int, w, e);
                    assert(open@[k as int] == current);
                }
                if heuristic_admissible(gridmap, costs, target) {
                    assert forall|w: Seq<Cell>|
                        is_walk(gridmap, w) && w[0] == start && w.last() == target implies walk_cost(
                            costs,
                            Heading::N,
                            path_walk(total_path@, target),
                        ) <= #[trigger] walk_cost(costs, Heading::N, w) by {
                        lemma_optimal(gridmap, costs, nodes@, open@, start, target, k as int, w, 0);
                        assert(open@[k as int] == current);
                    }
                }
            }
            return Some(total_path);
        }
        let ghost op0 = open@;
        open.remove(k);
        let ghost op1 = open@;
        proof {
            op0.remove_ensures(k as int);
            assert forall|s: SearchState| op1.contains(s) implies op0.contains(s) && s != current by {
                let j = choose|j: int| 0 <= j < op1.len() && op1[j] == s;
                if j < k {
                    assert(op0[j] == s);
                } else {
                    assert(op0[j + 1] == s);
                }
            }
            assert forall|s: SearchState| op0.contains(s) && s != current implies op1.contains(s) by {
                let j = choose|j: int| 0 <= j < op0.len() && op0[j] == s;
                if j < k {
                    assert(op1[j] == s);
                } else {
                    assert(op1[j - 1] == s);
                }
            }
            assert forall|j: int| 0 <= j < op1.len() implies #[trigger] open_entry_ok(gridmap, nodes@, op1[j]) by {
                if j < k {
                    assert(open_entry_ok(gridmap, nodes@, op0[j]));
                } else {
                    assert(open_entry_ok(gridmap, nodes@, op0[j + 1]));
                }
            }
            assert forall|s: SearchState| #[trigger] waits(gridmap, nodes@, op1, target, s) by {
                assert(waits(gridmap, nodes@, op0, target, s));
            }
            assert forall|s: SearchState|
                valid_state(gridmap, s) && is_visited(nodes@, s, hh) && !op1.contains(s) && Some(current) != Some(s)
                implies #[trigger] expanded(gridmap, costs, nodes@, s) by {
            }
            assert(op1.no_duplicates());
        }
        let cell = Cell { x: current.x, y: current.y };
        proof {
            let w = gridmap.width();
            let h = gridmap.height();
            assert(w * h * 8 <= 0xffff_ffff ==> w <= 0x1fff_ffff && h <= 0x1fff_ffff) by (nonlinear_arith)
                requires w >= 1, h >= 1;
            lemma_neighbours_sound(gridmap, cell);
        }
        let neighbours = get_neighbours(cell, gridmap);
        let current_g: i64 = current_node.g_score;
        let mut j: usize = 0;
        while j < neighbours.len()
            invariant
                gridmap.well_formed(),
                costs.fits(gridmap),
                state_count(gridmap) <= u32::MAX,
                height == gridmap.height(),
                hh == height,
                width == gridmap.width(),
                n == state_count(gridmap),
                gridmap.in_bounds(start.x as int, start.y as int),
                start != target,
                cell == state_cell(current),
                !(current.x == target.x && current.y == target.y),
                table_ok(gridmap, costs, nodes@, open@, start, target),
                closed_expanded(gridmap, costs, nodes@, open@, Some(current)),
                valid_state(gridmap, current),
                is_visited(nodes@, current, hh),
                !open@.contains(current),
                node_at(nodes@, current, hh).g_score == current_g,
                neighbours@ == gridmap.neighbours(cell),
                forall|m: int| 0 <= m < neighbours@.len() ==> #[trigger] is_step_node(gridmap, cell, neighbours@[m]),
                0 <= j <= neighbours@.len(),
                forall|m: int| 0 <= m < j ==> is_visited(nodes@, node_state(#[trigger] neighbours@[m]), hh),
                forall|m: int|
                    0 <= m < j ==> node_at(nodes@, node_state(#[trigger] neighbours@[m]), hh).g_score <= current_g
                        + move_cost(costs, current.h, cell, neighbours@[m].xy),
                count_visited(nodes@) >= c0,
                count_visited(nodes@) == c0 ==> total_cost(nodes@) <= s0,
                count_visited(nodes@) > c0 || total_cost(nodes@) < s0 || open@.len() == l0 - 1,
            decreases neighbours@.len() - j,
        {
            let neighbour = neighbours[j];
            assert(is_step_node(gridmap, cell, neighbours@[j as int]));
            let ghost before = nodes@;
            relax_neighbour(&mut nodes, &mut open, current, current_g, neighbour, costs, gridmap, height, Ghost(start), Ghost(target));
            proof {
                assert forall|m: int| 0 <= m < j + 1 implies is_visited(nodes@, node_state(#[trigger] neighbours@[m]), hh)
                    && node_at(nodes@, node_state(neighbours@[m]), hh).g_score <= current_g + move_cost(costs, current.h, cell, neighbours@[m].xy) by {
                    if m < j {
                        assert(is_visited(before, node_state(neighbours@[m]), hh));
                        assert(is_step_node(gridmap, cell, neighbours@[m]));
                        assert(valid_state(gridmap, node_state(neighbours@[m])));
                    }
                }
            }
            j = j + 1;
        }
        proof {
            assert forall|dx: int, dy: int|
                #[trigger] gridmap.can_step(current.x as int, current.y as int, current.x + dx, current.y + dy)
                implies is_visited(nodes@, succ(current, dx, dy), hh) && node_at(nodes@, succ(current, dx, dy), hh).g_score
                <= node_at(nodes@, current, hh).g_score + move_cost(costs, current.h, state_cell(current), state_cell(succ(current, dx, dy))) by {
                lemma_neighbours_complete(gridmap, cell, dx, dy);
                let node = step_node(cell, dx, dy);
                let m = choose|m: int| 0 <= m < neighbours@.len() && neighbours@[m] == node;
                assert(is_visited(nodes@, node_state(neighbours@[m]), hh));
                assert(node_at(nodes@, node_state(neighbours@[m]), hh).g_score <= current_g + move_cost(costs, current.h, cell, neighbours@[m].xy));
                assert(node_state(node) == succ(current, dx, dy));
                assert(state_cell(succ(current, dx, dy)) == node.xy);
            }
            assert(expanded(gridmap, costs, nodes@, current));
            assert forall|s: SearchState|
                valid_state(gridmap, s) && is_visited(nodes@, s, hh) && !open@.contains(s) && None::<SearchState> != Some(s)
                implies #[trigger] expanded(gridmap, costs, nodes@, s) by {
                if s != current {
                    assert(Some(current) != Some(s));
                }
            }
            lemma_weights_bounds(nodes@);
            lemma_parent(gridmap, costs, nodes@, start, target, start_state(start));
            assert(count_visited(nodes@) <= n);
            assert(open@.len() == l0 - 1 || count_visited(nodes@) > c0 || total_cost(nodes@) < s0);
        }
    }
    proof {
        if reachable(gridmap, start, target) {
            let w = choose|w: Seq<Cell>| is_walk(gridmap, w) && w[0] == start && w.last() == target;
            lemma_parent(gridmap, costs, nodes@, start, target, start_state(start));
            assert(is_visited(nodes@, SearchState { x: start.x, y: start.y, h: Heading::N }, hh));
            assert forall|s: SearchState|
                valid_state(gridmap, s) && is_visited(nodes@, s, hh) implies #[trigger] expanded(gridmap, costs, nodes@, s) by {
                assert(!open@.contains(s));
            }
            lemma_walk_visited(gridmap, costs, nodes@, w, w.len() - 1);
            let h = choose|h: Heading| #[trigger] is_visited(nodes@, SearchState { x: target.x, y: target.y, h: h }, hh);
            let s = SearchState { x: target.x, y: target.y, h: h };
            assert(waits(gridmap, nodes@, open@, target, s));
            assert(false);
        }
    }
    None
}

} // verus!
